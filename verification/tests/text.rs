use nanogpt_rs::opts::{bits_or, get, get_bool, get_numbers, get_text, parse_opts, size_or, Reading};
use nanogpt_rs::sample::{decode, encode_prompt, show, SampleArgs};
use nanogpt_rs::text::{parse_unsigned, push_decimal, push_text, same_text, unescape};
use nanogpt_rs::train::{Singles, TrainArgs};

fn strings(v: &[&str]) -> Vec<String> {
    v.iter().map(|s| s.to_string()).collect()
}

fn no_singles() -> Singles {
    Singles {
        dropout: None,
        learning_rate: None,
        weight_decay: None,
        beta1: None,
        beta2: None,
        grad_clip: None,
        min_lr: None,
    }
}

#[test]
fn escapes_are_replaced() {
    assert_eq!(unescape("\\n"), "\n");
    assert_eq!(unescape("a\\tb\\rc\\\\d"), "a\tb\rc\\d");
    assert_eq!(unescape("\\x\\"), "\\x\\");
    assert_eq!(unescape("\\\\n"), "\\n");
    assert_eq!(unescape("plain äß"), "plain äß");
    assert_eq!(unescape(""), "");
}

#[test]
fn unsigned_numbers_are_read_as_std_reads_them() {
    for s in ["0", "7", "+7", "007", "", "+", "-1", " 1", "1 ", "1_0", "255", "256", "99999999999999999999", "++1"] {
        assert_eq!(parse_unsigned(s, 255), s.parse::<u8>().ok().map(|n| n as u64), "{}", s);
        assert_eq!(parse_unsigned(s, u64::MAX), s.parse::<u64>().ok(), "{}", s);
    }
    assert_eq!(parse_unsigned("18446744073709551615", u64::MAX), Some(u64::MAX));
    assert_eq!(parse_unsigned("18446744073709551616", u64::MAX), None);
}

#[test]
fn decimals_are_written_as_std_writes_them() {
    for n in [0u64, 9, 10, 65, 1000, 1337, u64::MAX] {
        let mut s = String::from("=");
        push_decimal(&mut s, n);
        assert_eq!(s, format!("={}", n));
        assert_eq!(parse_unsigned(&s[1..], u64::MAX), Some(n));
    }
    let mut s = String::new();
    push_text(&mut s, "añb");
    assert_eq!(s, "añb");
    assert!(same_text("añb", &s));
    assert!(!same_text("anb", &s));
}

#[test]
fn options_are_pairs_or_flags() {
    let (opts, rest) = parse_opts(&strings(&[
        "--data-dir", "d", "stray", "--bias", "--seed", "5", "--last",
    ]));
    assert_eq!(
        opts,
        vec![
            ("data-dir".to_string(), "d".to_string()),
            ("bias".to_string(), "true".to_string()),
            ("seed".to_string(), "5".to_string()),
            ("last".to_string(), "true".to_string()),
        ]
    );
    assert_eq!(rest, strings(&["stray"]));
    let (opts, rest) = parse_opts(&strings(&["--", "-x", "y"]));
    assert_eq!(opts, vec![("".to_string(), "-x".to_string())]);
    assert_eq!(rest, strings(&["y"]));
}

#[test]
fn the_first_occurrence_of_a_key_counts() {
    let (opts, _) = parse_opts(&strings(&["--k", "1", "--k", "2", "--b", "yes", "--c", "no"]));
    assert_eq!(get(&opts, "k"), Some("1"));
    assert_eq!(get(&opts, "z"), None);
    assert!(get_bool(&opts, "b", false));
    assert!(!get_bool(&opts, "c", true));
    assert!(get_bool(&opts, "z", true));
    assert!(get_bool(&opts, "k", false));
    assert_eq!(get_text(&opts, "b", "d"), "yes");
    assert_eq!(get_text(&opts, "z", "d"), "d");
}

#[test]
fn numbers_of_keys() {
    let (opts, _) = parse_opts(&strings(&["--a", "12", "--seed", "18446744073709551615", "--bad", "x1"]));
    let v = get_numbers(&opts, &[("a", Reading::Count), ("b", Reading::Count), ("seed", Reading::Count)]).unwrap();
    assert_eq!(v, vec![Some(12), None, Some(u64::MAX)]);
    assert_eq!(size_or(v[0], 1), 12);
    assert_eq!(size_or(v[1], 1), 1);
    let v = get_numbers(
        &opts,
        &[("a", Reading::Single(Some(7))), ("b", Reading::Single(Some(8))), ("c", Reading::Single(None))],
    )
    .unwrap();
    assert_eq!(v, vec![Some(7), None, None]);
    assert_eq!((bits_or(v[0], 1), bits_or(v[1], 1)), (7, 1));
    let e = get_numbers(&opts, &[("a", Reading::Single(None)), ("bad", Reading::Count)]).unwrap_err();
    assert_eq!(e.message(), "bad value for --a: 12");
    let keys = [("a", Reading::Count), ("bad", Reading::Count), ("seed", Reading::Count)];
    let e = get_numbers(&opts, &keys).unwrap_err();
    assert_eq!(e.key, "bad");
    assert_eq!(e.value, "x1");
    assert_eq!(e.message(), "bad value for --bad: x1");
}

#[test]
fn training_defaults() {
    let a = TrainArgs::defaults(6);
    assert_eq!(a.data_dir, "");
    assert_eq!(a.out_dir, "out-rs");
    assert_eq!((a.block_size, a.batch_size, a.n_layer, a.n_head, a.n_embd), (64, 16, 4, 4, 128));
    assert_eq!(f32::from_bits(a.dropout), 0.2);
    assert!(!a.bias);
    assert_eq!(f32::from_bits(a.learning_rate), 1e-3);
    assert_eq!(a.max_iters, 300);
    assert_eq!(f32::from_bits(a.weight_decay), 0.1);
    assert_eq!(f32::from_bits(a.beta1), 0.9);
    assert_eq!(f32::from_bits(a.beta2), 0.99);
    assert_eq!(f32::from_bits(a.grad_clip), 1.0);
    assert!(a.decay_lr);
    assert_eq!((a.warmup_iters, a.lr_decay_iters), (50, 300));
    assert_eq!(f32::from_bits(a.min_lr), 1e-4);
    assert_eq!((a.eval_interval, a.eval_iters, a.log_interval), (50, 20, 10));
    assert!(!a.always_save_checkpoint);
    assert_eq!((a.seed, a.threads), (1337, 6));
}

#[test]
fn training_options() {
    let (opts, _) = parse_opts(&strings(&[
        "--max-iters", "70", "--n-head", "2", "--bias", "--always-save", "1", "--out-dir", "o",
        "--min-lr", "0.5",
    ]));
    let mut singles = no_singles();
    singles.min_lr = Some(0.5f32.to_bits());
    let a = TrainArgs::defaults(1).with_options(&opts, "here", &singles).ok().unwrap();
    assert_eq!(a.data_dir, "here");
    assert_eq!(a.out_dir, "o");
    assert_eq!(a.max_iters, 70);
    assert_eq!(a.lr_decay_iters, 70);
    assert_eq!(a.n_head, 2);
    assert_eq!(a.n_layer, 4);
    assert!(a.bias && a.always_save_checkpoint && a.decay_lr);
    assert_eq!(f32::from_bits(a.min_lr), 0.5);
    assert_eq!(f32::from_bits(a.beta1), 0.9);

    let (opts, _) = parse_opts(&strings(&[
        "--lr-decay-iters", "9", "--max-iters", "70", "--data-dir", "d", "--decay-lr", "false",
    ]));
    let a = TrainArgs::defaults(1).with_options(&opts, "here", &no_singles()).ok().unwrap();
    assert_eq!((a.max_iters, a.lr_decay_iters), (70, 9));
    assert_eq!(a.data_dir, "d");
    assert!(!a.decay_lr);

    let (opts, _) = parse_opts(&strings(&["--threads", "many", "--n-embd", "-3"]));
    let e = TrainArgs::defaults(1).with_options(&opts, "here", &no_singles()).err().unwrap();
    assert_eq!(e.message(), "bad value for --n-embd: -3");
}

#[test]
fn the_first_bad_option_is_named() {
    let bad = |args: &[&str]| {
        let (opts, _) = parse_opts(&strings(args));
        TrainArgs::defaults(1).with_options(&opts, "here", &no_singles()).err().unwrap().message()
    };
    assert_eq!(bad(&["--min-lr", "x", "--max-iters", "y"]), "bad value for --max-iters: y");
    assert_eq!(bad(&["--max-iters", "y", "--dropout", "z"]), "bad value for --dropout: z");
    assert_eq!(bad(&["--threads", "t", "--seed", "s", "--beta2", "b"]), "bad value for --beta2: b");
    let (opts, _) = parse_opts(&strings(&["--top-k", "k", "--temperature", "warm"]));
    let e = SampleArgs::defaults(1).with_options(&opts, None).err().unwrap();
    assert_eq!(e.message(), "bad value for --temperature: warm");
    let (opts, _) = parse_opts(&strings(&["--num-samples", "n", "--temperature", "warm"]));
    let e = SampleArgs::defaults(1).with_options(&opts, None).err().unwrap();
    assert_eq!(e.message(), "bad value for --num-samples: n");
}

#[test]
fn sampling_defaults_and_options() {
    let a = SampleArgs::defaults(3);
    assert_eq!(a.checkpoint, "out-rs/ckpt.bin");
    assert_eq!(a.start, "\n");
    assert_eq!((a.num_samples, a.max_new_tokens, a.top_k), (3, 300, 40));
    assert_eq!(f32::from_bits(a.temperature), 0.8);
    assert_eq!((a.seed, a.threads), (1337, 3));
    let (opts, _) = parse_opts(&strings(&["--top-k", "0", "--start", "To", "--seed", "4", "--temperature", "2"]));
    let a = a.with_options(&opts, Some(2.0f32.to_bits())).ok().unwrap();
    assert_eq!((a.top_k, a.seed, a.num_samples), (0, 4, 3));
    assert_eq!(a.start, "To");
    assert_eq!(f32::from_bits(a.temperature), 2.0);
    let (opts, _) = parse_opts(&strings(&["--top-k", "all"]));
    let e = SampleArgs::defaults(1).with_options(&opts, None).err().unwrap();
    assert_eq!(e.message(), "bad value for --top-k: all");
}

#[test]
fn prompts_become_tokens() {
    let itos = strings(&["\n", " ", "a", "b"]);
    assert_eq!(encode_prompt(&itos, "ab\\na"), (vec![2, 3, 0, 2], vec![]));
    assert_eq!(encode_prompt(&itos, "axb!"), (vec![2, 3], vec!['x', '!']));
    assert_eq!(encode_prompt(&itos, "zz"), (vec![0], vec!['z', 'z']));
    assert_eq!(encode_prompt(&itos, ""), (vec![0], vec![]));
    assert_eq!(encode_prompt(&[], "a"), (vec![0], vec!['a']));
}

#[test]
fn later_texts_with_the_same_first_character_win() {
    let itos = strings(&["ax", "", "ay", "b"]);
    assert_eq!(encode_prompt(&itos, "ab").0, vec![2, 3]);
}

#[test]
fn tokens_become_text() {
    let itos = strings(&["\n", "é", "ab"]);
    assert_eq!(decode(&itos, &[2, 1, 0, 9]), "abé\n?");
    assert_eq!(show(&itos, &[1, 1]), "éé");
    assert_eq!(show(&[], &[]), "[]");
    assert_eq!(show(&[], &[3]), format!("{:?}", vec![3u32]));
    assert_eq!(show(&[], &[3, 14, 0]), format!("{:?}", vec![3u32, 14, 0]));
}

#[test]
fn a_prompt_over_the_alphabet_reads_back() {
    let itos = strings(&["!", "H", "e", "l", "o"]);
    let (ids, left) = encode_prompt(&itos, "Hello!");
    assert!(left.is_empty());
    assert_eq!(decode(&itos, &ids), "Hello!");
}
