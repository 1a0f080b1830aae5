use nanogpt_rs::alphabet::{alphabet_of, encode};
use nanogpt_rs::bytes::{push_le, read_le};
use nanogpt_rs::data::{infer_vocab, load_bin, load_meta, pick, prepare, write_u16_bin, DataError, Dataset, Split};
use nanogpt_rs::json::{parse, Value};
use nanogpt_rs::meta::meta_json;
use nanogpt_rs::number::read_index;
use nanogpt_rs::rng::Rng;

fn texts(v: &[&str]) -> Vec<String> {
    v.iter().map(|s| s.to_string()).collect()
}

fn chars(s: &str) -> Vec<char> {
    s.chars().collect()
}

#[test]
fn token_files_are_little_endian_words() {
    assert_eq!(load_bin(&[1, 0, 0, 2, 255, 255]).unwrap(), vec![1, 512, 65535]);
    assert_eq!(load_bin(&[]).unwrap(), Vec::<u16>::new());
    let e = load_bin(&[1, 2, 3]).unwrap_err();
    assert_eq!(e, DataError::OddLength);
    assert_eq!(e.message(), "odd byte length in bin file");
    assert_eq!(write_u16_bin(&[1, 512, 65535]), vec![1, 0, 0, 2, 255, 255]);
}

#[test]
fn token_files_read_back() {
    let ids: Vec<u16> = (0..300).map(|i| (i * 997) as u16).collect();
    assert_eq!(load_bin(&write_u16_bin(&ids)).unwrap(), ids);
}

#[test]
fn the_vocabulary_is_inferred_from_the_largest_token() {
    assert_eq!(infer_vocab(&[3, 1], &[2]), (4, vec![]));
    assert_eq!(infer_vocab(&[3, 1], &[65535]), (65536, vec![]));
    assert_eq!(infer_vocab(&[], &[]), (1, vec![]));
    assert_eq!(infer_vocab(&[0], &[]), (1, vec![]));
}

#[test]
fn a_dataset_takes_its_vocabulary_from_the_metadata() {
    let train = write_u16_bin(&[0, 1, 1]);
    let val = write_u16_bin(&[5]);
    let d = Dataset::load(&train, &val, Some("{\"vocab_size\": 9, \"itos\": [\"a\"]}")).ok().unwrap();
    assert_eq!((d.train, d.val), (vec![0, 1, 1], vec![5]));
    assert_eq!((d.vocab_size, d.itos), (9, texts(&["a"])));
    for meta in [None, Some("{\"itos\": []}"), Some("nothing"), Some("[]")] {
        let d = Dataset::load(&train, &val, meta).ok().unwrap();
        assert_eq!((d.vocab_size, d.itos), (6, vec![]));
    }
    assert!(Dataset::load(&train, &[1], None).is_err());
    assert!(Dataset::load(&[7], &val, None).is_err());
}

#[test]
fn batches_are_stretches_of_the_data() {
    let data: Vec<u16> = (100..112).collect();
    let d = Dataset { train: data.clone(), val: vec![0; 20], vocab_size: 200, itos: vec![] };
    let mut rng = Rng::new(7);
    let (mut x, mut y) = (vec![9, 9], vec![]);
    d.get_batch(Split::Train, 4, 3, &mut rng, &mut x, &mut y);
    let starts = [0u32, 1, 6, 3];
    let mut want = vec![];
    for s in starts {
        for i in 0..3 {
            want.push(100 + s + i);
        }
    }
    assert_eq!(x, want);
    assert_eq!(y, want.iter().map(|t| t + 1).collect::<Vec<u32>>());
    let mut again = Rng::new(7);
    for _ in 0..4 {
        again.next_u64();
    }
    assert_eq!(rng.next_u64(), again.next_u64());
    d.get_batch(Split::Val, 1, 5, &mut rng, &mut x, &mut y);
    assert_eq!((x, y), (vec![0; 5], vec![0; 5]));
}

#[test]
fn targets_are_the_inputs_one_further_on() {
    let data: Vec<u16> = (0..500).map(|i| (i * i % 251) as u16).collect();
    let d = Dataset { train: data, val: vec![], vocab_size: 251, itos: vec![] };
    let mut rng = Rng::new(3);
    let (mut x, mut y) = (vec![], vec![]);
    d.get_batch(Split::Train, 8, 16, &mut rng, &mut x, &mut y);
    for b in 0..8 {
        assert_eq!(x[b * 16 + 1..b * 16 + 16], y[b * 16..b * 16 + 15]);
    }
}

#[test]
fn alphabets_are_sorted_and_distinct() {
    let cs = alphabet_of(&chars("hello wörld"));
    assert_eq!(cs, chars(" dehlorwö"));
    assert_eq!(encode(&cs, &chars("hello")), vec![3, 2, 4, 4, 5]);
    assert_eq!(alphabet_of(&[]), Vec::<char>::new());
}

#[test]
fn texts_are_prepared() {
    let p = prepare("abcabcabca");
    assert_eq!(p.chars, chars("abc"));
    assert_eq!(p.vocab_size, 3);
    assert_eq!(p.itos, texts(&["a", "b", "c"]));
    assert_eq!(p.train, vec![0, 1, 2, 0, 1, 2, 0, 1, 2]);
    assert_eq!(p.val, vec![0]);
    assert_eq!(p.train_bin, write_u16_bin(&p.train));
    assert_eq!(p.val_bin, vec![0, 0]);
    assert_eq!(p.meta, "{\n  \"vocab_size\": 3,\n  \"itos\": [\"a\", \"b\", \"c\"]\n}\n");
    let p = prepare("");
    assert_eq!((p.vocab_size, p.train.len(), p.val.len()), (0, 0, 0));
    assert_eq!(p.meta, "{\n  \"vocab_size\": 0,\n  \"itos\": []\n}\n");
}

#[test]
fn nine_tenths_go_to_training() {
    for n in [1usize, 2, 9, 10, 11, 19, 100, 1003, 4096, 65537] {
        let s: String = "xy".chars().cycle().take(n).collect();
        let p = prepare(&s);
        assert_eq!(p.train.len(), (n as f64 * 0.9) as usize);
        assert_eq!(p.train.len() + p.val.len(), n);
        assert!(!p.val.is_empty());
    }
}

#[test]
fn prepared_files_load_as_the_text() {
    let text = "To be, or not to be:\n\t\"that\" is \\ the question\u{1}é";
    let p = prepare(text);
    let d = Dataset::load(&p.train_bin, &p.val_bin, Some(&p.meta)).ok().unwrap();
    assert_eq!(d.vocab_size, p.vocab_size);
    assert_eq!(d.itos, p.itos);
    let back: String = d.train.iter().chain(d.val.iter()).map(|&t| d.itos[t as usize].as_str()).collect();
    assert_eq!(back, text);
}

#[test]
fn metadata_escapes_what_json_cannot_hold() {
    let cs = chars("\u{1}\t\n\r\u{1f} \"\\é");
    let s = meta_json(&cs);
    assert_eq!(
        s,
        "{\n  \"vocab_size\": 9,\n  \"itos\": [\"\\u0001\", \"\\t\", \"\\n\", \"\\r\", \"\\u001f\", \" \", \"\\\"\", \"\\\\\", \"é\"]\n}\n"
    );
    let (n, itos) = load_meta(&s).unwrap();
    assert_eq!(n, 9);
    assert_eq!(itos, cs.iter().map(|c| c.to_string()).collect::<Vec<String>>());
}

#[test]
fn metadata_is_read_leniently() {
    assert_eq!(load_meta("{\"vocab_size\": 3}"), Some((3, vec![])));
    assert_eq!(load_meta(" {\"vocab_size\" : 2.9 , \"x\": null, } tail"), Some((2, vec![])));
    assert_eq!(load_meta("{\"vocab_size\": 1, \"vocab_size\": 65e0}"), Some((65, vec![])));
    assert_eq!(load_meta("{\"vocab_size\": -4}"), Some((0, vec![])));
    assert_eq!(load_meta("{\"vocab_size\": \"3\"}"), None);
    assert_eq!(load_meta("{\"itos\": [\"a\"]}"), None);
    assert_eq!(load_meta("[1]"), None);
    assert_eq!(load_meta(""), None);
    assert_eq!(
        load_meta("{\"itos\": [\"\\u00e9\", 5, \"\\/\", ], \"vocab_size\": 1e1}"),
        Some((10, texts(&["é", "", "/"])))
    );
}

#[test]
fn json_values() {
    assert!(matches!(parse("true"), Some(Value::Bool(true))));
    assert!(matches!(parse(" false"), Some(Value::Bool(false))));
    assert!(matches!(parse("null"), Some(Value::Null)));
    match parse("[1, \"a\\nb\"]") {
        Some(Value::Arr(v)) => {
            assert_eq!(v.len(), 2);
            assert!(matches!(&v[0], Value::Num(s) if s == "1"));
            assert!(matches!(&v[1], Value::Str(s) if s == "a\nb"));
        }
        _ => panic!("no array"),
    }
    let text = " \"a\\n\\u0041\\\\\" z";
    assert!(matches!(parse(text), Some(Value::Str(s)) if s == "a\nA\\"));
    for bad in ["\"ab", "\"\\x\"", "\"\\u00\"", "\"\\ud800\"", "ab\"", "", "  "] {
        assert!(parse(bad).is_none(), "{}", bad);
    }
    assert!(matches!(parse("\"\\u00e9\\u+0e9\""), Some(Value::Str(s)) if s == "éé"));
    for bad in ["", "tru", "nul", "{", "[", "\"", "\"\\x\"", "\"\\ud800\"", "\"\\u12", "{\"a\" 1}", "{1: 2}", "[1 2]", "1.2.3", "--1", "x"] {
        assert!(parse(bad).is_none(), "{}", bad);
    }
}

#[test]
fn numbers_become_indices_as_doubles_do() {
    for s in [
        "0", "7", "65", "-0", "-3", "+5", "2.9999", ".5", "5.", "1e3", "1E+2", "12345e-2", "9007199254740993",
        "18446744073709551615", "18446744073709551616", "1e400", "-1e400", "1e-400", "0.1e1", "123456789012345678901234567890",
        "4503599627370497.5", "9007199254740992.9999",
    ] {
        let want = s.parse::<f64>().unwrap() as usize;
        assert_eq!(read_index(&chars(s)), Some(want), "{}", s);
    }
    for s in ["", "+", "-", ".", "e1", "1e", "1e+", "1.2.3", "1-2", "--1"] {
        assert!(s.parse::<f64>().is_err());
        assert_eq!(read_index(&chars(s)), None, "{}", s);
    }
}

#[test]
fn little_endian_numbers_read_back() {
    let mut b = vec![9u8];
    push_le(&mut b, 0x0102_0304_0506_0708, 8);
    assert_eq!(b[1..], 0x0102_0304_0506_0708u64.to_le_bytes());
    assert_eq!(read_le(&b, 1, 8), 0x0102_0304_0506_0708);
    assert_eq!(read_le(&b, 1, 2), 0x0708);
    push_le(&mut b, 0x1_0000_0002, 4);
    assert_eq!(read_le(&b, 9, 4), 2);
}

#[test]
fn the_first_candidate_that_is_there_is_picked() {
    assert_eq!(pick(&[false, true, true]), 1);
    assert_eq!(pick(&[true, false, true]), 0);
    assert_eq!(pick(&[false, false, true]), 2);
    assert_eq!(pick(&[false, false, false]), 0);
    assert_eq!(pick(&[]), 0);
}
