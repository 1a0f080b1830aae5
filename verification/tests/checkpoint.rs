use nanogpt_rs::checkpoint::{checkpoint_file, load_checkpoint, CheckpointError};
use nanogpt_rs::model::{can_build, GptConfig};

fn config() -> GptConfig {
    GptConfig {
        block_size: 8,
        vocab_size: 3,
        n_layer: 1,
        n_head: 2,
        n_embd: 4,
        dropout: 0.2f32.to_bits(),
        bias: true,
    }
}

fn texts() -> Vec<String> {
    vec!["\n".to_string(), "é".to_string(), "ab".to_string()]
}

fn file() -> Vec<u8> {
    let params: Vec<u32> = vec![1.5f32.to_bits(), (-0.0f32).to_bits(), f32::NAN.to_bits()];
    checkpoint_file(&config(), &params, 42, 1.25f64.to_bits(), &texts())
}

#[test]
fn the_layout_is_as_described() {
    let mut want = b"NPGPTCK1".to_vec();
    want.extend_from_slice(&1u32.to_le_bytes());
    for n in [8u32, 3, 1, 2, 4] {
        want.extend_from_slice(&n.to_le_bytes());
    }
    want.extend_from_slice(&0.2f32.to_le_bytes());
    want.push(1);
    want.extend_from_slice(&42u64.to_le_bytes());
    want.extend_from_slice(&1.25f64.to_le_bytes());
    want.extend_from_slice(&3u32.to_le_bytes());
    for s in texts() {
        want.extend_from_slice(&(s.len() as u32).to_le_bytes());
        want.extend_from_slice(s.as_bytes());
    }
    want.extend_from_slice(&3u64.to_le_bytes());
    for p in [1.5f32, -0.0, f32::NAN] {
        want.extend_from_slice(&p.to_le_bytes());
    }
    assert_eq!(file(), want);
}

#[test]
fn checkpoints_read_back() {
    let mut b = file();
    for _ in 0..2 {
        let c = load_checkpoint(&b).ok().unwrap();
        assert_eq!(c.cfg, config());
        assert_eq!(c.params, vec![1.5f32.to_bits(), (-0.0f32).to_bits(), f32::NAN.to_bits()]);
        assert_eq!(c.iter_num, 42);
        assert_eq!(f64::from_bits(c.best_val_loss), 1.25);
        assert_eq!(c.itos, texts());
        b.extend_from_slice(b"tail");
    }
}

#[test]
fn cut_checkpoints_are_refused() {
    let b = file();
    for k in 0..b.len() {
        assert_eq!(load_checkpoint(&b[..k]).err(), Some(CheckpointError::Truncated), "{}", k);
    }
}

#[test]
fn foreign_bytes_are_refused() {
    let mut b = file();
    b[7] = b'2';
    let e = load_checkpoint(&b).err().unwrap();
    assert_eq!(e, CheckpointError::BadMagic);
    assert_eq!(e.message(), "bad checkpoint magic");
    let mut b = file();
    b[8] = 7;
    let e = load_checkpoint(&b).err().unwrap();
    assert_eq!(e, CheckpointError::UnsupportedVersion(7));
    assert_eq!(e.message(), "unsupported checkpoint version 7");
    let mut b = file();
    let at = b.windows(2).position(|w| w == "é".as_bytes()).unwrap();
    b[at + 1] = b'x';
    let e = load_checkpoint(&b).err().unwrap();
    assert_eq!(e, CheckpointError::InvalidUtf8 { from: 0, len: Some(1) });
    assert_eq!(e.message(), "invalid utf-8 sequence of 1 bytes from index 0");
    let e = load_checkpoint(&[]).err().unwrap();
    assert_eq!(e.message(), "truncated checkpoint");
    let e = CheckpointError::ParamCountMismatch { found: 3, expected: 12 };
    assert_eq!(e.message(), "checkpoint param count mismatch: 3 vs 12");
}

#[test]
fn a_huge_parameter_count_is_a_truncation() {
    let mut b = file();
    let n = b.len();
    for x in &mut b[n - 20..n - 12] {
        *x = 0xff;
    }
    assert_eq!(load_checkpoint(&b).err(), Some(CheckpointError::Truncated));
}

#[test]
fn shapes_that_can_be_built() {
    assert!(can_build(&config()));
    assert!(!can_build(&GptConfig { n_head: 0, ..config() }));
    assert!(!can_build(&GptConfig { n_head: 3, ..config() }));
    assert!(!can_build(&GptConfig { n_embd: 1 << 40, ..config() }));
    assert!(can_build(&GptConfig { n_embd: 1 << 40, n_layer: 0, block_size: 8, ..config() }));
    assert!(!can_build(&GptConfig { vocab_size: usize::MAX, ..config() }));
    assert!(can_build(&GptConfig { n_embd: 0, vocab_size: usize::MAX, ..config() }));
}

#[test]
fn broken_texts_are_told_as_std_tells_them() {
    let broken: [&[u8]; 7] = [
        b"\xff",
        b"ab\xc3",
        b"\xe2\x82",
        b"a\xe2\x82z",
        b"\xf0\x9f\x98!",
        b"\xc0\x80",
        b"\xc3\xa9\xed\xa0\x80x",
    ];
    for t in broken {
        let mut b = checkpoint_file(&config(), &[], 0, 0, &["".to_string()]);
        let at = b.len() - 12;
        assert_eq!(b[at..at + 4], [0, 0, 0, 0]);
        b[at] = t.len() as u8;
        for (i, x) in t.iter().enumerate() {
            b.insert(at + 4 + i, *x);
        }
        let e = load_checkpoint(&b).err().unwrap();
        let u = String::from_utf8(t.to_vec()).unwrap_err();
        let (from, len) = (u.utf8_error().valid_up_to(), u.utf8_error().error_len());
        assert_eq!(e, CheckpointError::InvalidUtf8 { from, len });
        assert_eq!(e.message(), u.to_string());
    }
    let e = CheckpointError::InvalidUtf8 { from: 2, len: None };
    assert_eq!(e.message(), "incomplete utf-8 byte sequence from index 2");
}
