//! Checkpoint files: a small self-describing binary format.
//!
//! magic "NPGPTCK1" | version | shape | iteration | best validation loss | token texts |
//! parameter count | parameters. All numbers are little-endian, floating-point numbers
//! are held by their bit patterns.
use crate::bytes;
use crate::bytes::{push_le, read_le};
use crate::layout;
use crate::model;
use crate::model::{Gpt, GptConfig};
use crate::rng::Rng;
use crate::scalar;
use crate::scalar::{Num, Scalar, Term};
use crate::spans;
use crate::text;
use crate::text::{push_decimal, push_text};
use vstd::prelude::*;
use vstd::utf8::*;

verus! {

/// The version that is written and read.
pub const VERSION: u32 = 1;

/// The eight bytes that a checkpoint starts with: "NPGPTCK1".
pub open spec fn magic() -> Seq<u8> {
    seq![78u8, 80, 71, 80, 84, 67, 75, 49]
}

/// A saved model.
pub struct Checkpoint {
    pub cfg: GptConfig,
    /// The bit patterns of the parameters, singles.
    pub params: Vec<u32>,
    pub iter_num: u64,
    /// The bit pattern of the best validation loss, a double.
    pub best_val_loss: u64,
    pub itos: Vec<String>,
}

/// What a checkpoint holds.
#[verifier::ext_equal]
pub struct Contents {
    pub cfg: GptConfig,
    pub params: Seq<u32>,
    pub iter_num: u64,
    pub best_val_loss: u64,
    pub itos: Seq<Seq<char>>,
}

impl View for Checkpoint {
    type V = Contents;

    open spec fn view(&self) -> Contents {
        Contents {
            cfg: self.cfg,
            params: self.params@,
            iter_num: self.iter_num,
            best_val_loss: self.best_val_loss,
            itos: text::views(self.itos@),
        }
    }
}

/// Why bytes are no checkpoint, or a checkpoint no model.
#[derive(Clone, Copy, Debug, PartialEq, Eq, Structural)]
pub enum CheckpointError {
    /// The bytes end too early.
    Truncated,
    /// The bytes do not start as a checkpoint does.
    BadMagic,
    /// The checkpoint was written in a version that is not known.
    UnsupportedVersion(u32),
    /// A token text is not UTF-8: its first `from` bytes are, and behind them stands a sequence
    /// of `len` bytes that is not, or the start of one that the text cuts off.
    InvalidUtf8 { from: usize, len: Option<usize> },
    /// The checkpoint holds `found` parameters where its shape calls for `expected`.
    ParamCountMismatch { found: usize, expected: usize },
}

impl CheckpointError {
    /// What went wrong, in words.
    pub open spec fn words(self) -> Seq<char> {
        match self {
            CheckpointError::Truncated => "truncated checkpoint"@,
            CheckpointError::BadMagic => "bad checkpoint magic"@,
            CheckpointError::UnsupportedVersion(v) => "unsupported checkpoint version "@
                + text::decimal(v as nat),
            CheckpointError::InvalidUtf8 { from, len: Some(n) } => "invalid utf-8 sequence of "@
                + text::decimal(n as nat) + " bytes from index "@ + text::decimal(from as nat),
            CheckpointError::InvalidUtf8 { from, len: None } =>
                "incomplete utf-8 byte sequence from index "@ + text::decimal(from as nat),
            CheckpointError::ParamCountMismatch { found, expected } =>
                "checkpoint param count mismatch: "@ + text::decimal(found as nat) + " vs "@
                    + text::decimal(expected as nat),
        }
    }

    /// What went wrong, in words.
    pub fn message(&self) -> (s: String)
        ensures
            s@ == self.words(),
    {
        let mut s = String::new();
        match *self {
            CheckpointError::Truncated => push_text(&mut s, "truncated checkpoint"),
            CheckpointError::BadMagic => push_text(&mut s, "bad checkpoint magic"),
            CheckpointError::UnsupportedVersion(v) => {
                push_text(&mut s, "unsupported checkpoint version ");
                push_decimal(&mut s, v as u64);
            },
            CheckpointError::InvalidUtf8 { from, len: Some(n) } => {
                push_text(&mut s, "invalid utf-8 sequence of ");
                push_decimal(&mut s, n as u64);
                push_text(&mut s, " bytes from index ");
                push_decimal(&mut s, from as u64);
            },
            CheckpointError::InvalidUtf8 { from, len: None } => {
                push_text(&mut s, "incomplete utf-8 byte sequence from index ");
                push_decimal(&mut s, from as u64);
            },
            CheckpointError::ParamCountMismatch { found, expected } => {
                push_text(&mut s, "checkpoint param count mismatch: ");
                push_decimal(&mut s, found as u64);
                push_text(&mut s, " vs ");
                push_decimal(&mut s, expected as u64);
            },
        }
        assert(s@ =~= self.words());
        s
    }
}

/// A string as it is written: the number of its bytes, then its bytes in UTF-8.
pub open spec fn string_bytes(s: Seq<char>) -> Seq<u8> {
    bytes::le(encode_utf8(s).len(), 4) + encode_utf8(s)
}

/// Strings one behind the other.
pub open spec fn strings_bytes(v: Seq<Seq<char>>) -> Seq<u8>
    decreases v.len(),
{
    if v.len() == 0 {
        seq![]
    } else {
        string_bytes(v[0]) + strings_bytes(v.skip(1))
    }
}

/// 32-bit words one behind the other.
pub open spec fn words_bytes(v: Seq<u32>) -> Seq<u8>
    decreases v.len(),
{
    if v.len() == 0 {
        seq![]
    } else {
        bytes::le(v[0] as nat, 4) + words_bytes(v.skip(1))
    }
}

/// The shape as it is written; sizes keep their low 32 bits.
pub open spec fn config_bytes(cfg: GptConfig) -> Seq<u8> {
    bytes::le(cfg.block_size as nat, 4) + bytes::le(cfg.vocab_size as nat, 4) + bytes::le(
        cfg.n_layer as nat,
        4,
    ) + bytes::le(cfg.n_head as nat, 4) + bytes::le(cfg.n_embd as nat, 4) + bytes::le(
        cfg.dropout as nat,
        4,
    ) + seq![
        if cfg.bias {
            1u8
        } else {
            0u8
        },
    ]
}

/// What stands before the token texts.
pub open spec fn head_bytes(c: Contents) -> Seq<u8> {
    magic() + bytes::le(VERSION as nat, 4) + config_bytes(c.cfg) + bytes::le(c.iter_num as nat, 8)
        + bytes::le(c.best_val_loss as nat, 8) + bytes::le(c.itos.len(), 4)
}

/// The file that holds a checkpoint.
pub open spec fn file_bytes(c: Contents) -> Seq<u8> {
    head_bytes(c) + strings_bytes(c.itos) + bytes::le(c.params.len(), 8) + words_bytes(c.params)
}

/// The number in the `n` bytes from `i` on.
pub open spec fn number_at(b: Seq<u8>, i: int, n: int) -> nat {
    bytes::le_value(b.subrange(i, i + n))
}

/// The shape that stands at `i`.
pub open spec fn config_at(b: Seq<u8>, i: int) -> GptConfig {
    GptConfig {
        block_size: number_at(b, i, 4) as usize,
        vocab_size: number_at(b, i + 4, 4) as usize,
        n_layer: number_at(b, i + 8, 4) as usize,
        n_head: number_at(b, i + 12, 4) as usize,
        n_embd: number_at(b, i + 16, 4) as usize,
        dropout: number_at(b, i + 20, 4) as u32,
        bias: b[i + 24] != 0,
    }
}

/// The `n` strings from `i` on, and the position behind them.
pub open spec fn strings_at(b: Seq<u8>, i: int, n: nat) -> Result<
    (Seq<Seq<char>>, int),
    CheckpointError,
>
    decreases n,
{
    if n == 0 {
        Ok((seq![], i))
    } else if i + 4 > b.len() || i + 4 + number_at(b, i, 4) > b.len() {
        Err(CheckpointError::Truncated)
    } else {
        let e = i + 4 + number_at(b, i, 4);
        let s = b.subrange(i + 4, e);
        if !valid_utf8(s) {
            Err(
                CheckpointError::InvalidUtf8 {
                    from: utf8_up_to(s) as usize,
                    len: utf8_error_len(s),
                },
            )
        } else {
            match strings_at(b, e, (n - 1) as nat) {
                Ok((rest, z)) => Ok((seq![decode_utf8(s)] + rest, z)),
                Err(err) => Err(err),
            }
        }
    }
}

/// The `n` words from `i` on.
pub open spec fn words_at(b: Seq<u8>, i: int, n: nat) -> Seq<u32> {
    Seq::new(n, |j: int| number_at(b, i + 4 * j, 4) as u32)
}

/// What the bytes `b` hold as a checkpoint.
pub open spec fn contents_of(b: Seq<u8>) -> Result<Contents, CheckpointError> {
    if b.len() < 8 {
        Err(CheckpointError::Truncated)
    } else if b.subrange(0, 8) != magic() {
        Err(CheckpointError::BadMagic)
    } else if b.len() < 12 {
        Err(CheckpointError::Truncated)
    } else if number_at(b, 8, 4) != VERSION {
        Err(CheckpointError::UnsupportedVersion(number_at(b, 8, 4) as u32))
    } else if b.len() < 57 {
        Err(CheckpointError::Truncated)
    } else {
        match strings_at(b, 57, number_at(b, 53, 4)) {
            Err(e) => Err(e),
            Ok((itos, i)) => if i + 8 > b.len() || i + 8 + 4 * number_at(b, i, 8) > b.len() {
                Err(CheckpointError::Truncated)
            } else {
                Ok(
                    Contents {
                        cfg: config_at(b, 12),
                        params: words_at(b, i + 8, number_at(b, i, 8)),
                        iter_num: number_at(b, 37, 8) as u64,
                        best_val_loss: number_at(b, 45, 8) as u64,
                        itos,
                    },
                )
            },
        }
    }
}

/// `n` is the length of the longest start of `b` that is UTF-8.
pub open spec fn is_utf8_up_to(b: Seq<u8>, n: int) -> bool {
    &&& 0 <= n <= b.len()
    &&& valid_utf8(b.take(n))
    &&& forall|k: int| n < k <= b.len() ==> !valid_utf8(#[trigger] b.take(k))
}

/// The length of the longest start of `b` that is UTF-8.
pub open spec fn utf8_up_to(b: Seq<u8>) -> int {
    choose|n: int| is_utf8_up_to(b, n)
}

/// What `Utf8Error::error_len` gives for bytes that are not UTF-8: the length of the sequence
/// that is not, or nothing where the bytes end within one.
pub uninterp spec fn utf8_error_len(b: Seq<u8>) -> Option<usize>;

proof fn lemma_utf8_up_to(b: Seq<u8>, n: int)
    requires
        is_utf8_up_to(b, n),
    ensures
        utf8_up_to(b) == n,
{
    let k = utf8_up_to(b);
    assert(is_utf8_up_to(b, k));
    if k < n {
        assert(!valid_utf8(b.take(n)));
    } else if n < k {
        assert(!valid_utf8(b.take(k)));
    }
}

/// `String::from_utf8` gives the string that the bytes spell in UTF-8, and an error exactly
/// where they are not UTF-8. The error tells by `valid_up_to` how long the longest start of
/// the bytes is that is UTF-8, and by `error_len` the length of the sequence behind it that is
/// not; `error_len` tells none where the bytes end within a sequence, one to three bytes
/// further on. Which length it tells is settled by the bytes; it is named and not spelled out.
#[verifier::external_body]
fn string_from_utf8(b: Vec<u8>) -> (r: Result<String, (usize, Option<usize>)>)
    ensures
        match r {
            Ok(s) => valid_utf8(b@) && s@ == decode_utf8(b@),
            Err((from, len)) => {
                &&& !valid_utf8(b@)
                &&& is_utf8_up_to(b@, from as int)
                &&& len == utf8_error_len(b@)
                &&& match len {
                    Some(n) => 1 <= n <= b@.len() - from,
                    None => 1 <= b@.len() - from <= 3,
                }
            },
        },
{
    String::from_utf8(b).map_err(|e| (e.utf8_error().valid_up_to(), e.utf8_error().error_len()))
}

/// Appends a string.
fn w_str(f: &mut Vec<u8>, s: &str)
    ensures
        final(f)@ == old(f)@ + string_bytes(s@),
{
    let b = s.as_bytes();
    push_le(f, b.len() as u64, 4);
    f.extend_from_slice(b);
    assert(f@ =~= old(f)@ + string_bytes(s@));
}

fn w_strings(f: &mut Vec<u8>, v: &[String])
    ensures
        final(f)@ == old(f)@ + strings_bytes(text::views(v@)),
{
    let ghost t = text::views(v@);
    let mut i: usize = 0;
    assert(t.skip(0) =~= t);
    while i < v.len()
        invariant
            i <= v.len(),
            t == text::views(v@),
            f@ + strings_bytes(t.skip(i as int)) == old(f)@ + strings_bytes(t),
        decreases v.len() - i,
    {
        let ghost before = f@;
        let ghost rest = t.skip(i as int);
        w_str(f, v[i].as_str());
        assert(rest.skip(1) =~= t.skip(i + 1));
        assert(rest[0] == v@[i as int]@);
        assert(f@ + strings_bytes(rest.skip(1)) =~= before + strings_bytes(rest));
        i += 1;
    }
    assert(f@ + strings_bytes(t.skip(i as int)) =~= f@);
}

fn w_words(f: &mut Vec<u8>, v: &[u32])
    ensures
        final(f)@ == old(f)@ + words_bytes(v@),
{
    let mut i: usize = 0;
    assert(v@.skip(0) =~= v@);
    while i < v.len()
        invariant
            i <= v.len(),
            f@ + words_bytes(v@.skip(i as int)) == old(f)@ + words_bytes(v@),
        decreases v.len() - i,
    {
        let ghost before = f@;
        let ghost rest = v@.skip(i as int);
        push_le(f, v[i] as u64, 4);
        assert(rest.skip(1) =~= v@.skip(i + 1));
        assert(f@ + words_bytes(rest.skip(1)) =~= before + words_bytes(rest));
        i += 1;
    }
    assert(f@ + words_bytes(v@.skip(i as int)) =~= f@);
}

/// The file that holds a model of the shape `cfg` with the given parameters.
pub fn checkpoint_file(
    cfg: &GptConfig,
    params: &[u32],
    iter_num: u64,
    best_val_loss: u64,
    itos: &[String],
) -> (f: Vec<u8>)
    ensures
        f@ == file_bytes(
            Contents { cfg: *cfg, params: params@, iter_num, best_val_loss, itos: text::views(itos@) },
        ),
{
    let mut f: Vec<u8> = Vec::new();
    f.extend_from_slice(&magic_bytes());
    assert(f@ =~= magic());
    push_le(&mut f, VERSION as u64, 4);
    let ghost start = f@;
    push_le(&mut f, cfg.block_size as u64, 4);
    push_le(&mut f, cfg.vocab_size as u64, 4);
    push_le(&mut f, cfg.n_layer as u64, 4);
    push_le(&mut f, cfg.n_head as u64, 4);
    push_le(&mut f, cfg.n_embd as u64, 4);
    push_le(&mut f, cfg.dropout as u64, 4);
    f.push(
        if cfg.bias {
            1
        } else {
            0
        },
    );
    assert(f@ =~= start + config_bytes(*cfg));
    push_le(&mut f, iter_num, 8);
    push_le(&mut f, best_val_loss, 8);
    push_le(&mut f, itos.len() as u64, 4);
    w_strings(&mut f, itos);
    push_le(&mut f, params.len() as u64, 8);
    w_words(&mut f, params);
    f
}

/// A cursor in the bytes of a checkpoint.
struct Reader<'a> {
    b: &'a [u8],
    i: usize,
}

impl<'a> Reader<'a> {
    spec fn ok(&self) -> bool {
        self.i <= self.b@.len() <= usize::MAX
    }

    /// Whether `n` more bytes are there.
    fn has(&self, n: u64) -> (r: bool)
        requires
            self.ok(),
        ensures
            r == (self.i + n <= self.b@.len()),
    {
        n <= (self.b.len() - self.i) as u64
    }

    /// The next number of `n` bytes.
    fn number(&mut self, n: usize) -> (r: Result<u64, CheckpointError>)
        requires
            old(self).ok(),
            n <= 8,
        ensures
            final(self).ok(),
            final(self).b@ == old(self).b@,
            match r {
                Ok(v) => {
                    &&& old(self).i + n <= old(self).b@.len()
                    &&& v == number_at(old(self).b@, old(self).i as int, n as int)
                    &&& v < bytes::byte_range(n as nat)
                    &&& final(self).i == old(self).i + n
                },
                Err(e) => {
                    &&& e == CheckpointError::Truncated
                    &&& old(self).i + n > old(self).b@.len()
                    &&& final(self).i == old(self).i
                },
            },
    {
        if !self.has(n as u64) {
            return Err(CheckpointError::Truncated);
        }
        let v: u64 = read_le(self.b, self.i, n);
        self.i += n;
        Ok(v)
    }

    /// The next size, a number of four bytes.
    fn size(&mut self) -> (r: Result<usize, CheckpointError>)
        requires
            old(self).ok(),
        ensures
            final(self).ok(),
            final(self).b@ == old(self).b@,
            match r {
                Ok(v) => {
                    &&& old(self).i + 4 <= old(self).b@.len()
                    &&& v == number_at(old(self).b@, old(self).i as int, 4)
                    &&& v == number_at(old(self).b@, old(self).i as int, 4) as usize
                    &&& final(self).i == old(self).i + 4
                },
                Err(e) => {
                    &&& e == CheckpointError::Truncated
                    &&& old(self).i + 4 > old(self).b@.len()
                    &&& final(self).i == old(self).i
                },
            },
    {
        proof {
            reveal_with_fuel(bytes::byte_range, 5);
        }
        match self.number(4) {
            Ok(v) => Ok(v as usize),
            Err(e) => Err(e),
        }
    }

    /// The next string.
    fn string(&mut self) -> (r: Result<String, CheckpointError>)
        requires
            old(self).ok(),
        ensures
            final(self).ok(),
            final(self).b@ == old(self).b@,
            match r {
                Ok(s) => strings_at(old(self).b@, old(self).i as int, 1) == Ok::<
                    (Seq<Seq<char>>, int),
                    CheckpointError,
                >((seq![s@], final(self).i as int)),
                Err(e) => strings_at(old(self).b@, old(self).i as int, 1) == Err::<
                    (Seq<Seq<char>>, int),
                    CheckpointError,
                >(e),
            },
    {
        proof {
            reveal_with_fuel(strings_at, 2);
        }
        let ghost b = self.b@;
        let ghost at = self.i as int;
        let len: usize = match self.size() {
            Ok(n) => n,
            Err(e) => {
                return Err(e);
            },
        };
        if !self.has(len as u64) {
            return Err(CheckpointError::Truncated);
        }
        let part = vstd::slice::slice_subrange(self.b, self.i, self.i + len);
        self.i += len;
        match string_from_utf8(vstd::slice::slice_to_vec(part)) {
            Ok(s) => {
                assert(seq![s@] + Seq::<Seq<char>>::empty() =~= seq![s@]);
                Ok(s)
            },
            Err((from, len)) => {
                proof {
                    lemma_utf8_up_to(part@, from as int);
                }
                Err(CheckpointError::InvalidUtf8 { from, len })
            },
        }
    }

    /// The next `n` strings.
    fn strings(&mut self, n: usize) -> (r: Result<Vec<String>, CheckpointError>)
        requires
            old(self).ok(),
        ensures
            final(self).ok(),
            final(self).b@ == old(self).b@,
            match r {
                Ok(v) => strings_at(old(self).b@, old(self).i as int, n as nat) == Ok::<
                    (Seq<Seq<char>>, int),
                    CheckpointError,
                >((text::views(v@), final(self).i as int)),
                Err(e) => strings_at(old(self).b@, old(self).i as int, n as nat) == Err::<
                    (Seq<Seq<char>>, int),
                    CheckpointError,
                >(e),
            },
    {
        let mut v: Vec<String> = Vec::new();
        let mut k: usize = n;
        let ghost b = self.b@;
        proof {
            if let Ok((rest, e)) = strings_at(b, self.i as int, n as nat) {
                assert(text::views(v@) + rest =~= rest);
            }
        }
        while k > 0
            invariant
                self.ok(),
                self.b@ == b,
                b == old(self).b@,
                k <= n,
                match strings_at(b, self.i as int, k as nat) {
                    Ok((rest, e)) => strings_at(b, old(self).i as int, n as nat) == Ok::<
                        (Seq<Seq<char>>, int),
                        CheckpointError,
                    >((text::views(v@) + rest, e)),
                    Err(err) => strings_at(b, old(self).i as int, n as nat) == Err::<
                        (Seq<Seq<char>>, int),
                        CheckpointError,
                    >(err),
                },
            decreases k,
        {
            let ghost at = self.i as int;
            proof {
                reveal_with_fuel(strings_at, 2);
            }
            match self.string() {
                Ok(s) => {
                    let ghost before = text::views(v@);
                    let ghost t = s@;
                    v.push(s);
                    assert(text::views(v@) =~= before.push(t));
                    proof {
                        lemma_first_string(b, at, k as nat);
                        if let Ok((rest, e)) = strings_at(b, self.i as int, (k - 1) as nat) {
                            assert(before + (seq![t] + rest) =~= text::views(v@) + rest);
                        }
                    }
                },
                Err(e) => {
                    return Err(e);
                },
            }
            k -= 1;
        }
        assert(text::views(v@) + Seq::<Seq<char>>::empty() =~= text::views(v@));
        Ok(v)
    }

    /// The next `n` words.
    fn words(&mut self, n: u64) -> (r: Result<Vec<u32>, CheckpointError>)
        requires
            old(self).ok(),
        ensures
            final(self).ok(),
            final(self).b@ == old(self).b@,
            match r {
                Ok(v) => old(self).i + 4 * n <= old(self).b@.len() && v@ == words_at(
                    old(self).b@,
                    old(self).i as int,
                    n as nat,
                ),
                Err(e) => e == CheckpointError::Truncated && old(self).i + 4 * n
                    > old(self).b@.len(),
            },
    {
        if n > (self.b.len() - self.i) as u64 / 4 {
            return Err(CheckpointError::Truncated);
        }
        let mut v: Vec<u32> = Vec::new();
        let mut k: u64 = 0;
        proof {
            reveal_with_fuel(bytes::byte_range, 5);
        }
        while k < n
            invariant
                self.ok(),
                self.b@ == old(self).b@,
                k <= n,
                self.i == old(self).i + 4 * k,
                old(self).i + 4 * n <= self.b@.len(),
                v@ == words_at(self.b@, old(self).i as int, n as nat).take(k as int),
                bytes::byte_range(4) == 0x1_0000_0000,
            decreases n - k,
        {
            let w: u64 = read_le(self.b, self.i, 4);
            v.push(w as u32);
            self.i += 4;
            k += 1;
            assert(v@ =~= words_at(self.b@, old(self).i as int, n as nat).take(k as int));
        }
        assert(v@ =~= words_at(self.b@, old(self).i as int, n as nat));
        Ok(v)
    }
}

/// Reading several strings starts with reading one.
proof fn lemma_first_string(b: Seq<u8>, i: int, n: nat)
    requires
        n >= 1,
    ensures
        match strings_at(b, i, 1) {
            Ok((one, e)) => strings_at(b, i, n) == match strings_at(b, e, (n - 1) as nat) {
                Ok((rest, z)) => Ok::<(Seq<Seq<char>>, int), CheckpointError>((one + rest, z)),
                Err(err) => Err(err),
            },
            Err(err) => strings_at(b, i, n) == Err::<(Seq<Seq<char>>, int), CheckpointError>(err),
        },
{
    reveal_with_fuel(strings_at, 2);
    if let Ok((one, e)) = strings_at(b, i, 1) {
        let s = b.subrange(i + 4, e);
        assert(one =~= seq![decode_utf8(s)]);
    }
}

/// Reads a checkpoint.
pub fn load_checkpoint(b: &[u8]) -> (r: Result<Checkpoint, CheckpointError>)
    ensures
        match r {
            Ok(c) => contents_of(b@) == Ok::<Contents, CheckpointError>(c@),
            Err(e) => contents_of(b@) == Err::<Contents, CheckpointError>(e),
        },
{
    if b.len() < 8 {
        return Err(CheckpointError::Truncated);
    }
    let m = magic_bytes();
    let mut k: usize = 0;
    while k < 8
        invariant
            k <= 8,
            b.len() >= 8,
            m@ == magic(),
            forall|j: int| 0 <= j < k ==> b@[j] == m@[j],
        decreases 8 - k,
    {
        if b[k] != m[k] {
            assert(b@.subrange(0, 8)[k as int] != magic()[k as int]);
            return Err(CheckpointError::BadMagic);
        }
        k += 1;
    }
    assert(b@.subrange(0, 8) =~= magic());
    proof {
        reveal_with_fuel(bytes::byte_range, 9);
    }
    let mut r = Reader { b, i: 8 };
    let version: u32 = match r.number(4) {
        Ok(v) => v as u32,
        Err(e) => {
            return Err(e);
        },
    };
    if version != VERSION {
        return Err(CheckpointError::UnsupportedVersion(version));
    }
    if !r.has(45) {
        return Err(CheckpointError::Truncated);
    }
    let cfg = GptConfig {
        block_size: read_le(b, 12, 4) as usize,
        vocab_size: read_le(b, 16, 4) as usize,
        n_layer: read_le(b, 20, 4) as usize,
        n_head: read_le(b, 24, 4) as usize,
        n_embd: read_le(b, 28, 4) as usize,
        dropout: read_le(b, 32, 4) as u32,
        bias: b[36] != 0,
    };
    let iter_num: u64 = read_le(b, 37, 8);
    let best_val_loss: u64 = read_le(b, 45, 8);
    r.i = 53;
    let n_chars: usize = match r.size() {
        Ok(n) => n,
        Err(e) => {
            return Err(e);
        },
    };
    let itos: Vec<String> = match r.strings(n_chars) {
        Ok(v) => v,
        Err(e) => {
            return Err(e);
        },
    };
    let n_params: u64 = match r.number(8) {
        Ok(n) => n,
        Err(e) => {
            return Err(e);
        },
    };
    match r.words(n_params) {
        Ok(params) => Ok(Checkpoint { cfg, params, iter_num, best_val_loss, itos }),
        Err(e) => Err(e),
    }
}

fn magic_bytes() -> (m: [u8; 8])
    ensures
        m@ == magic(),
{
    let m: [u8; 8] = [78, 80, 71, 80, 84, 67, 75, 49];
    assert(m@ =~= magic());
    m
}

proof fn lemma_number_stands(b: Seq<u8>, i: int, v: nat, n: nat)
    requires
        spans::stands(b, i, bytes::le(v, n)),
        v < bytes::byte_range(n),
    ensures
        number_at(b, i, n as int) == v,
{
    bytes::law_le_reads_back(v, n);
    spans::lemma_stands_subrange(b, i, bytes::le(v, n));
}

/// Every text is short enough for its length to be written.
pub open spec fn texts_fit(v: Seq<Seq<char>>) -> bool {
    forall|i: int| 0 <= i < v.len() ==> encode_utf8(#[trigger] v[i]).len() < 0x1_0000_0000
}

proof fn lemma_strings_read_back(b: Seq<u8>, i: int, v: Seq<Seq<char>>)
    requires
        spans::stands(b, i, strings_bytes(v)),
        texts_fit(v),
    ensures
        strings_at(b, i, v.len()) == Ok::<(Seq<Seq<char>>, int), CheckpointError>(
            (v, i + strings_bytes(v).len()),
        ),
    decreases v.len(),
{
    if v.len() == 0 {
        assert(v =~= Seq::<Seq<char>>::empty());
    } else {
        let enc = encode_utf8(v[0]);
        let rest = v.skip(1);
        reveal_with_fuel(bytes::byte_range, 5);
        bytes::lemma_le_len(enc.len(), 4);
        spans::lemma_stands_split(b, i, string_bytes(v[0]), strings_bytes(rest));
        spans::lemma_stands_split(b, i, bytes::le(enc.len(), 4), enc);
        lemma_number_stands(b, i, enc.len(), 4);
        let e = i + 4 + enc.len();
        spans::lemma_stands_subrange(b, i + 4, enc);
        encode_utf8_valid_utf8(v[0]);
        encode_utf8_decode_utf8(v[0]);
        assert forall|k: int| 0 <= k < rest.len() implies encode_utf8(#[trigger] rest[k]).len()
            < 0x1_0000_0000 by {
            assert(encode_utf8(v[k + 1]).len() < 0x1_0000_0000);
        }
        lemma_strings_read_back(b, e, rest);
        assert(seq![v[0]] + rest =~= v);
    }
}

proof fn lemma_words_read_back(b: Seq<u8>, i: int, v: Seq<u32>)
    requires
        spans::stands(b, i, words_bytes(v)),
    ensures
        words_bytes(v).len() == 4 * v.len(),
        words_at(b, i, v.len()) == v,
    decreases v.len(),
{
    let w = words_at(b, i, v.len());
    if v.len() > 0 {
        let rest = v.skip(1);
        reveal_with_fuel(bytes::byte_range, 5);
        bytes::lemma_le_len(v[0] as nat, 4);
        spans::lemma_stands_split(b, i, bytes::le(v[0] as nat, 4), words_bytes(rest));
        lemma_number_stands(b, i, v[0] as nat, 4);
        lemma_words_read_back(b, i + 4, rest);
        let u = words_at(b, i + 4, rest.len());
        assert forall|j: int| 0 <= j < v.len() implies w[j] == v[j] by {
            if j > 0 {
                assert(u[j - 1] == rest[j - 1]);
                assert(i + 4 + 4 * (j - 1) == i + 4 * j);
            }
        }
    }
    assert(w =~= v);
}

/// Each size of the shape is small enough to be written whole.
pub open spec fn config_fits(cfg: GptConfig) -> bool {
    &&& cfg.block_size < 0x1_0000_0000
    &&& cfg.vocab_size < 0x1_0000_0000
    &&& cfg.n_layer < 0x1_0000_0000
    &&& cfg.n_head < 0x1_0000_0000
    &&& cfg.n_embd < 0x1_0000_0000
}

proof fn lemma_config_reads_back(b: Seq<u8>, i: int, cfg: GptConfig)
    requires
        spans::stands(b, i, config_bytes(cfg)),
        config_fits(cfg),
    ensures
        config_bytes(cfg).len() == 25,
        config_at(b, i) == cfg,
        number_at(b, i, 4) == cfg.block_size,
        number_at(b, i + 4, 4) == cfg.vocab_size,
        number_at(b, i + 8, 4) == cfg.n_layer,
        number_at(b, i + 12, 4) == cfg.n_head,
        number_at(b, i + 16, 4) == cfg.n_embd,
        number_at(b, i + 20, 4) == cfg.dropout,
        b[i + 24] == if cfg.bias {
            1u8
        } else {
            0u8
        },
{
    reveal_with_fuel(bytes::byte_range, 5);
    let f1 = bytes::le(cfg.block_size as nat, 4);
    let f2 = bytes::le(cfg.vocab_size as nat, 4);
    let f3 = bytes::le(cfg.n_layer as nat, 4);
    let f4 = bytes::le(cfg.n_head as nat, 4);
    let f5 = bytes::le(cfg.n_embd as nat, 4);
    let f6 = bytes::le(cfg.dropout as nat, 4);
    let f7 = seq![
        if cfg.bias {
            1u8
        } else {
            0u8
        },
    ];
    bytes::lemma_le_len(cfg.block_size as nat, 4);
    bytes::lemma_le_len(cfg.vocab_size as nat, 4);
    bytes::lemma_le_len(cfg.n_layer as nat, 4);
    bytes::lemma_le_len(cfg.n_head as nat, 4);
    bytes::lemma_le_len(cfg.n_embd as nat, 4);
    bytes::lemma_le_len(cfg.dropout as nat, 4);
    spans::lemma_stands_split(b, i, f1 + f2 + f3 + f4 + f5 + f6, f7);
    spans::lemma_stands_split(b, i, f1 + f2 + f3 + f4 + f5, f6);
    spans::lemma_stands_split(b, i, f1 + f2 + f3 + f4, f5);
    spans::lemma_stands_split(b, i, f1 + f2 + f3, f4);
    spans::lemma_stands_split(b, i, f1 + f2, f3);
    spans::lemma_stands_split(b, i, f1, f2);
    lemma_number_stands(b, i, cfg.block_size as nat, 4);
    lemma_number_stands(b, i + 4, cfg.vocab_size as nat, 4);
    lemma_number_stands(b, i + 8, cfg.n_layer as nat, 4);
    lemma_number_stands(b, i + 12, cfg.n_head as nat, 4);
    lemma_number_stands(b, i + 16, cfg.n_embd as nat, 4);
    lemma_number_stands(b, i + 20, cfg.dropout as nat, 4);
    assert(b[i + 24] == f7[0]);
}

proof fn lemma_head_reads_back(b: Seq<u8>, c: Contents)
    requires
        spans::stands(b, 0, head_bytes(c)),
        config_fits(c.cfg),
        c.itos.len() < 0x1_0000_0000,
    ensures
        head_bytes(c).len() == 57,
        b.len() >= 57,
        b.subrange(0, 8) == magic(),
        number_at(b, 8, 4) == VERSION,
        config_at(b, 12) == c.cfg,
        number_at(b, 37, 8) == c.iter_num,
        number_at(b, 45, 8) == c.best_val_loss,
        number_at(b, 53, 4) == c.itos.len(),
        number_at(b, 12, 4) == c.cfg.block_size,
        number_at(b, 16, 4) == c.cfg.vocab_size,
        number_at(b, 20, 4) == c.cfg.n_layer,
        number_at(b, 24, 4) == c.cfg.n_head,
        number_at(b, 28, 4) == c.cfg.n_embd,
        number_at(b, 32, 4) == c.cfg.dropout,
        b[36] == if c.cfg.bias {
            1u8
        } else {
            0u8
        },
{
    let h1 = magic();
    let h2 = bytes::le(VERSION as nat, 4);
    let h3 = config_bytes(c.cfg);
    let h4 = bytes::le(c.iter_num as nat, 8);
    let h5 = bytes::le(c.best_val_loss as nat, 8);
    let h6 = bytes::le(c.itos.len(), 4);
    bytes::lemma_le_len(VERSION as nat, 4);
    bytes::lemma_le_len(c.iter_num as nat, 8);
    bytes::lemma_le_len(c.best_val_loss as nat, 8);
    bytes::lemma_le_len(c.itos.len(), 4);
    spans::lemma_stands_split(b, 0, h1 + h2 + h3 + h4 + h5, h6);
    spans::lemma_stands_split(b, 0, h1 + h2 + h3 + h4, h5);
    spans::lemma_stands_split(b, 0, h1 + h2 + h3, h4);
    spans::lemma_stands_split(b, 0, h1 + h2, h3);
    spans::lemma_stands_split(b, 0, h1, h2);
    lemma_config_reads_back(b, 12, c.cfg);
    reveal_with_fuel(bytes::byte_range, 9);
    spans::lemma_stands_subrange(b, 0, h1);
    lemma_number_stands(b, 8, VERSION as nat, 4);
    lemma_number_stands(b, 37, c.iter_num as nat, 8);
    lemma_number_stands(b, 45, c.best_val_loss as nat, 8);
    lemma_number_stands(b, 53, c.itos.len(), 4);
}

/// A checkpoint reads back as what was written, weights and texts verbatim, where its
/// sizes are small enough to be written whole. What follows it in the file does not matter.
pub proof fn law_checkpoint_reads_back(c: Contents, more: Seq<u8>)
    requires
        config_fits(c.cfg),
        c.itos.len() < 0x1_0000_0000,
        texts_fit(c.itos),
        c.params.len() <= u64::MAX,
    ensures
        contents_of(file_bytes(c) + more) == Ok::<Contents, CheckpointError>(c),
{
    let b = file_bytes(c) + more;
    let h = head_bytes(c);
    let t = strings_bytes(c.itos);
    let n = bytes::le(c.params.len(), 8);
    let w = words_bytes(c.params);
    assert(spans::stands(b, 0, h + t + n + w));
    spans::lemma_stands_split(b, 0, h + t + n, w);
    spans::lemma_stands_split(b, 0, h + t, n);
    spans::lemma_stands_split(b, 0, h, t);
    lemma_head_reads_back(b, c);
    lemma_strings_read_back(b, 57, c.itos);
    let i = 57int + t.len();
    bytes::lemma_le_len(c.params.len(), 8);
    reveal_with_fuel(bytes::byte_range, 9);
    lemma_number_stands(b, i, c.params.len(), 8);
    lemma_words_read_back(b, i + 8, c.params);
}

/// Where everything stands in a checkpoint file: the letters `NPGPTCK1`, the version, the
/// shape, the iteration, the best loss, the number of texts, the texts, the number of
/// parameters and the parameters.
pub proof fn law_checkpoint_layout(c: Contents)
    requires
        config_fits(c.cfg),
        c.itos.len() < 0x1_0000_0000,
        texts_fit(c.itos),
        c.params.len() <= u64::MAX,
    ensures
        ({
            let b = file_bytes(c);
            let i = 57 + strings_bytes(c.itos).len();
            &&& b.len() == i + 8 + 4 * c.params.len()
            &&& b.subrange(0, 8) == seq![78u8, 80, 71, 80, 84, 67, 75, 49]
            &&& number_at(b, 8, 4) == 1
            &&& number_at(b, 12, 4) == c.cfg.block_size
            &&& number_at(b, 16, 4) == c.cfg.vocab_size
            &&& number_at(b, 20, 4) == c.cfg.n_layer
            &&& number_at(b, 24, 4) == c.cfg.n_head
            &&& number_at(b, 28, 4) == c.cfg.n_embd
            &&& number_at(b, 32, 4) == c.cfg.dropout
            &&& b[36] == if c.cfg.bias {
                1u8
            } else {
                0u8
            }
            &&& number_at(b, 37, 8) == c.iter_num
            &&& number_at(b, 45, 8) == c.best_val_loss
            &&& number_at(b, 53, 4) == c.itos.len()
            &&& number_at(b, i as int, 8) == c.params.len()
            &&& forall|j: int|
                0 <= j < c.params.len() ==> number_at(b, i + 8 + 4 * j, 4) as u32
                    == #[trigger] c.params[j]
        }),
{
    let b = file_bytes(c);
    let h = head_bytes(c);
    let t = strings_bytes(c.itos);
    let n = bytes::le(c.params.len(), 8);
    let w = words_bytes(c.params);
    assert(spans::stands(b, 0, h + t + n + w));
    spans::lemma_stands_split(b, 0, h + t + n, w);
    spans::lemma_stands_split(b, 0, h + t, n);
    spans::lemma_stands_split(b, 0, h, t);
    lemma_head_reads_back(b, c);
    let i = 57int + t.len();
    bytes::lemma_le_len(c.params.len(), 8);
    reveal_with_fuel(bytes::byte_range, 9);
    lemma_number_stands(b, i, c.params.len(), 8);
    lemma_words_read_back(b, i + 8, c.params);
    let ws = words_at(b, i + 8, c.params.len());
    assert forall|j: int| 0 <= j < c.params.len() implies number_at(b, i + 8 + 4 * j, 4) as u32
        == #[trigger] c.params[j] by {
        assert(ws[j] == c.params[j]);
    }
}

/// A text stands in a checkpoint as the number of its bytes and these, one text behind the
/// other.
pub proof fn law_texts_stand_with_their_lengths(v: Seq<Seq<char>>, i: int)
    requires
        0 <= i < v.len(),
        texts_fit(v),
    ensures
        ({
            let b = strings_bytes(v);
            let at = strings_bytes(v.take(i)).len() as int;
            let n = encode_utf8(v[i]).len();
            &&& at + 4 + n <= b.len()
            &&& number_at(b, at, 4) == n
            &&& b.subrange(at + 4, at + 4 + n) == encode_utf8(v[i])
        }),
    decreases i,
{
    let b = strings_bytes(v);
    let rest = v.skip(1);
    let first = string_bytes(v[0]);
    let enc = encode_utf8(v[0]);
    bytes::lemma_le_len(enc.len(), 4);
    reveal_with_fuel(bytes::byte_range, 5);
    assert(spans::stands(b, 0, first + strings_bytes(rest)));
    spans::lemma_stands_split(b, 0, first, strings_bytes(rest));
    if i == 0 {
        assert(v.take(0) =~= Seq::<Seq<char>>::empty());
        spans::lemma_stands_split(b, 0, bytes::le(enc.len(), 4), enc);
        lemma_number_stands(b, 0, enc.len(), 4);
        spans::lemma_stands_subrange(b, 4, enc);
    } else {
        assert forall|k: int| 0 <= k < rest.len() implies encode_utf8(#[trigger] rest[k]).len()
            < 0x1_0000_0000 by {
            assert(encode_utf8(v[k + 1]).len() < 0x1_0000_0000);
        }
        law_texts_stand_with_their_lengths(rest, i - 1);
        assert(v.take(i).skip(1) =~= rest.take(i - 1));
        assert(v.take(i)[0] == v[0]);
        let r = strings_bytes(rest);
        let inner = strings_bytes(rest.take(i - 1)).len() as int;
        let at = strings_bytes(v.take(i)).len() as int;
        assert(at == first.len() + inner);
        let n = encode_utf8(v[i]).len();
        assert(v[i] == rest[i - 1]);
        assert(b.subrange(at, at + 4) =~= r.subrange(inner, inner + 4));
        assert(b.subrange(at + 4, at + 4 + n) =~= r.subrange(inner + 4, inner + 4 + n));
    }
}

/// The end of the bytes does not matter for a number that stands before it.
proof fn lemma_number_in_prefix(b: Seq<u8>, k: int, i: int, n: int)
    requires
        0 <= i,
        0 <= n,
        i + n <= k <= b.len(),
    ensures
        number_at(b.take(k), i, n) == number_at(b, i, n),
{
    assert(b.take(k).subrange(i, i + n) =~= b.subrange(i, i + n));
}

proof fn lemma_strings_in_prefix(b: Seq<u8>, k: int, i: int, n: nat)
    requires
        0 <= i <= k <= b.len(),
        strings_at(b, i, n) is Ok,
    ensures
        strings_at(b, i, n)->Ok_0.1 >= i,
        strings_at(b.take(k), i, n) == if strings_at(b, i, n)->Ok_0.1 <= k {
            strings_at(b, i, n)
        } else {
            Err::<(Seq<Seq<char>>, int), CheckpointError>(CheckpointError::Truncated)
        },
    decreases n,
{
    if n > 0 {
        let e = i + 4 + number_at(b, i, 4);
        assert(strings_at(b, e, (n - 1) as nat) is Ok);
        if e <= k {
            lemma_number_in_prefix(b, k, i, 4);
            assert(b.take(k).subrange(i + 4, e) =~= b.subrange(i + 4, e));
            lemma_strings_in_prefix(b, k, e, (n - 1) as nat);
        } else {
            lemma_strings_in_prefix(b, b.len() as int, e, (n - 1) as nat);
            if i + 4 <= k {
                lemma_number_in_prefix(b, k, i, 4);
            }
        }
    }
}

/// A checkpoint that was cut off anywhere is refused.
pub proof fn law_cut_checkpoint_is_refused(c: Contents, k: nat)
    requires
        config_fits(c.cfg),
        c.itos.len() < 0x1_0000_0000,
        texts_fit(c.itos),
        c.params.len() <= u64::MAX,
        k < file_bytes(c).len(),
    ensures
        contents_of(file_bytes(c).take(k as int)) == Err::<Contents, CheckpointError>(
            CheckpointError::Truncated,
        ),
{
    let b = file_bytes(c);
    let p = b.take(k as int);
    let h = head_bytes(c);
    let t = strings_bytes(c.itos);
    let n = bytes::le(c.params.len(), 8);
    let w = words_bytes(c.params);
    assert(spans::stands(b, 0, h + t + n + w));
    spans::lemma_stands_split(b, 0, h + t + n, w);
    spans::lemma_stands_split(b, 0, h + t, n);
    spans::lemma_stands_split(b, 0, h, t);
    lemma_head_reads_back(b, c);
    lemma_strings_read_back(b, 57, c.itos);
    let i = 57int + t.len();
    bytes::lemma_le_len(c.params.len(), 8);
    reveal_with_fuel(bytes::byte_range, 9);
    lemma_number_stands(b, i, c.params.len(), 8);
    lemma_words_read_back(b, i + 8, c.params);
    if k >= 8 {
        assert(p.subrange(0, 8) =~= b.subrange(0, 8));
    }
    if k >= 12 {
        lemma_number_in_prefix(b, k as int, 8, 4);
    }
    if k >= 57 {
        lemma_number_in_prefix(b, k as int, 53, 4);
        lemma_strings_in_prefix(b, k as int, 57, c.itos.len());
    }
    if k >= i + 8 {
        lemma_number_in_prefix(b, k as int, i, 8);
    }
}

/// `bits` are possible bit patterns of the numbers.
pub open spec fn are_patterns<T: Scalar>(params: Seq<Term<T>>, bits: Seq<u32>) -> bool {
    &&& bits.len() == params.len()
    &&& forall|i: int| 0 <= i < bits.len() ==> scalar::may_have_bits(params[i], #[trigger] bits[i])
}

/// The bit patterns of numbers.
fn patterns_of<T: Scalar>(params: &[Num<T>]) -> (bits: Vec<u32>)
    ensures
        are_patterns(scalar::terms(params@), bits@),
{
    let mut bits: Vec<u32> = Vec::new();
    let mut i: usize = 0;
    while i < params.len()
        invariant
            i <= params.len(),
            bits@.len() == i,
            forall|j: int|
                0 <= j < i ==> scalar::may_have_bits(
                    scalar::terms(params@)[j],
                    #[trigger] bits@[j],
                ),
        decreases params.len() - i,
    {
        bits.push(params[i].pattern());
        i += 1;
    }
    bits
}

/// The file `f` holds a model, the iteration it was trained to, its best loss so far and the
/// texts of its tokens.
pub open spec fn saves<T: Scalar>(
    model: Gpt<T>,
    iter_num: u64,
    best_val_loss: u64,
    itos: Seq<Seq<char>>,
    f: Seq<u8>,
) -> bool {
    exists|bits: Seq<u32>| #[trigger]
        are_patterns(scalar::terms(model.params@), bits) && f == file_bytes(
            Contents { cfg: model.cfg, params: bits, iter_num, best_val_loss, itos },
        )
}

/// The file that holds a model, the iteration it was trained to and its best loss so far.
pub fn save_checkpoint<T: Scalar>(
    model: &Gpt<T>,
    iter_num: u64,
    best_val_loss: u64,
    itos: &[String],
) -> (f: Vec<u8>)
    ensures
        saves(*model, iter_num, best_val_loss, text::views(itos@), f@),
{
    let bits = patterns_of(model.params.as_slice());
    let f = checkpoint_file(&model.cfg, bits.as_slice(), iter_num, best_val_loss, itos);
    assert(are_patterns(scalar::terms(model.params@), bits@));
    f
}

/// The numbers with the given bit patterns.
pub open spec fn with_patterns<T>(bits: Seq<u32>) -> Seq<Term<T>> {
    Seq::new(bits.len(), |i: int| Term::Bits(bits[i]))
}

/// `m` is the model that a checkpoint holds, before any gradient.
pub open spec fn restores<T: Scalar>(c: Contents, m: Gpt<T>) -> bool {
    &&& c.params.len() == layout::total_len(c.cfg)
    &&& m.ok()
    &&& m.cfg == c.cfg
    &&& scalar::terms(m.params@) == with_patterns::<T>(c.params)
    &&& scalar::terms(m.grads@) == layout::zeros::<T>(c.params.len())
    &&& m.decay@ == layout::decay_flags(c.cfg)
}

/// `b` is the number with a bit pattern that `a` has.
pub open spec fn keeps_pattern<T: Scalar>(a: Term<T>, b: Term<T>) -> bool {
    exists|bits: u32| #[trigger] scalar::may_have_bits(a, bits) && b == Term::<T>::Bits(bits)
}

/// A model comes back from its file as it was saved: the same shape, every parameter with the
/// bit pattern that it had, the flags for decay of that shape; and with it the iteration, the
/// best loss and the texts of the tokens.
pub proof fn law_saved_model_comes_back<T: Scalar>(
    model: Gpt<T>,
    iter_num: u64,
    best_val_loss: u64,
    itos: Seq<Seq<char>>,
    f: Seq<u8>,
    c: Contents,
    m: Gpt<T>,
)
    requires
        model.ok(),
        config_fits(model.cfg),
        itos.len() < 0x1_0000_0000,
        texts_fit(itos),
        saves(model, iter_num, best_val_loss, itos, f),
        contents_of(f) == Ok::<Contents, CheckpointError>(c),
        restores(c, m),
    ensures
        c.iter_num == iter_num,
        c.best_val_loss == best_val_loss,
        c.itos == itos,
        m.cfg == model.cfg,
        m.decay@ == layout::decay_flags(model.cfg),
        m.params@.len() == model.params@.len(),
        forall|i: int|
            0 <= i < model.params@.len() ==> keeps_pattern(
                model.params@[i]@,
                (#[trigger] m.params@[i])@,
            ),
{
    let bits = choose|bits: Seq<u32>| #[trigger]
        are_patterns(scalar::terms(model.params@), bits) && f == file_bytes(
            Contents { cfg: model.cfg, params: bits, iter_num, best_val_loss, itos },
        );
    let saved = Contents { cfg: model.cfg, params: bits, iter_num, best_val_loss, itos };
    law_checkpoint_reads_back(saved, Seq::<u8>::empty());
    assert(f + Seq::<u8>::empty() =~= f);
    assert(c == saved);
    let p = scalar::terms(m.params@);
    assert(p.len() == bits.len());
    assert forall|i: int| 0 <= i < model.params@.len() implies keeps_pattern(
        model.params@[i]@,
        (#[trigger] m.params@[i])@,
    ) by {
        assert(scalar::terms(model.params@)[i] == model.params@[i]@);
        assert(scalar::may_have_bits(scalar::terms(model.params@)[i], bits[i]));
        assert(p[i] == Term::<T>::Bits(bits[i]));
        assert(p[i] == m.params@[i]@);
    }
}

/// The model that a checkpoint holds, its parameters taken over bit by bit.
pub fn model_from_checkpoint<T: Scalar>(ckpt: &Checkpoint) -> (r: Result<Gpt<T>, CheckpointError>)
    requires
        model::buildable(ckpt.cfg),
    ensures
        match r {
            Ok(m) => restores(ckpt@, m),
            Err(e) => {
                &&& ckpt.params@.len() != layout::total_len(ckpt.cfg)
                &&& e == (CheckpointError::ParamCountMismatch {
                    found: ckpt.params@.len() as usize,
                    expected: layout::total_len(ckpt.cfg) as usize,
                })
            },
        },
{
    let mut rng = Rng::new(0);
    let mut m: Gpt<T> = Gpt::new(ckpt.cfg, &mut rng);
    let n: usize = m.params.len();
    if n != ckpt.params.len() {
        return Err(
            CheckpointError::ParamCountMismatch { found: ckpt.params.len(), expected: n },
        );
    }
    let mut i: usize = 0;
    let ghost m0 = m;
    while i < n
        invariant
            i <= n,
            n == ckpt.params@.len(),
            n == m.params@.len(),
            m == (Gpt { params: m.params, ..m0 }),
            forall|j: int|
                0 <= j < i ==> (#[trigger] m.params@[j])@ == Term::<T>::Bits(ckpt.params@[j]),
        decreases n - i,
    {
        m.params[i] = Num::bits(ckpt.params[i]);
        i += 1;
    }
    assert(scalar::terms(m.params@) =~= with_patterns::<T>(ckpt.params@));
    Ok(m)
}

} // verus!
