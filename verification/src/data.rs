//! Datasets of character tokens: token files, batches, preparation from text and the
//! metadata that goes with it.
use crate::alphabet;
use crate::alphabet::{alphabet_of, encode};
use crate::bytes;
use crate::bytes::{push_le, read_le};
use crate::meta;
use crate::meta::meta_json;
use crate::rng;
use crate::rng::Rng;
use crate::rounding;
use crate::text;
use crate::text::chars_of;
use vstd::arithmetic::div_mod::*;
use vstd::prelude::*;

pub use crate::meta::load_meta;

verus! {

/// The tokens in a file of little-endian 16-bit words.
pub open spec fn tokens_of(b: Seq<u8>) -> Seq<u16> {
    Seq::new(b.len() / 2, |i: int| bytes::le_value(b.subrange(2 * i, 2 * i + 2)) as u16)
}

/// The file of little-endian 16-bit words that holds `ids`.
pub open spec fn file_of(ids: Seq<u16>) -> Seq<u8>
    decreases ids.len(),
{
    if ids.len() == 0 {
        seq![]
    } else {
        file_of(ids.drop_last()) + bytes::le(ids.last() as nat, 2)
    }
}

proof fn lemma_file_of(ids: Seq<u16>, i: int)
    requires
        0 <= i < ids.len(),
    ensures
        file_of(ids).len() == 2 * ids.len(),
        file_of(ids).subrange(2 * i, 2 * i + 2) == bytes::le(ids[i] as nat, 2),
    decreases ids.len(),
{
    let head = ids.drop_last();
    bytes::lemma_le_len(ids.last() as nat, 2);
    if head.len() > 0 {
        lemma_file_of(head, 0);
    } else {
        assert(file_of(head) =~= Seq::<u8>::empty());
    }
    if i < head.len() {
        lemma_file_of(head, i);
        assert(file_of(ids).subrange(2 * i, 2 * i + 2) =~= file_of(head).subrange(2 * i, 2 * i + 2));
        assert(head[i] == ids[i]);
    } else {
        assert(file_of(ids).subrange(2 * i, 2 * i + 2) =~= bytes::le(ids.last() as nat, 2));
    }
}

/// A token file reads back as the tokens it was written from.
pub proof fn law_file_reads_back(ids: Seq<u16>)
    ensures
        file_of(ids).len() == 2 * ids.len(),
        tokens_of(file_of(ids)) == ids,
{
    if ids.len() > 0 {
        lemma_file_of(ids, 0);
    }
    let t = tokens_of(file_of(ids));
    assert forall|i: int| 0 <= i < ids.len() implies t[i] == ids[i] by {
        lemma_file_of(ids, i);
        reveal_with_fuel(bytes::byte_range, 3);
        bytes::law_le_reads_back(ids[i] as nat, 2);
    }
    assert(t =~= ids);
}

/// Why a dataset could not be loaded.
#[derive(Clone, Copy, Debug, PartialEq, Eq, Structural)]
pub enum DataError {
    /// A token file does not consist of whole 16-bit words.
    OddLength,
}

impl DataError {
    /// What went wrong, in words.
    pub fn message(&self) -> (s: &'static str)
        ensures
            s@ == "odd byte length in bin file"@,
    {
        "odd byte length in bin file"
    }
}

/// Reads a token file.
pub fn load_bin(b: &[u8]) -> (r: Result<Vec<u16>, DataError>)
    ensures
        match r {
            Ok(ids) => b@.len() % 2 == 0 && ids@ == tokens_of(b@),
            Err(e) => b@.len() % 2 != 0 && e == DataError::OddLength,
        },
{
    if b.len() % 2 != 0 {
        return Err(DataError::OddLength);
    }
    let mut ids: Vec<u16> = Vec::new();
    let mut i: usize = 0;
    while i < b.len()
        invariant
            i <= b.len(),
            i % 2 == 0,
            b.len() % 2 == 0,
            ids@ == tokens_of(b@).take(i as int / 2),
        decreases b.len() - i,
    {
        let w: u64 = read_le(b, i, 2);
        proof {
            reveal_with_fuel(bytes::byte_range, 3);
        }
        ids.push(w as u16);
        assert(2 * (i as int / 2) == i);
        assert(ids@ =~= tokens_of(b@).take((i + 2) as int / 2));
        i += 2;
    }
    assert(ids@ =~= tokens_of(b@));
    Ok(ids)
}

/// The contents of the token file that holds `ids`.
pub fn write_u16_bin(ids: &[u16]) -> (b: Vec<u8>)
    ensures
        b@ == file_of(ids@),
{
    let mut b: Vec<u8> = Vec::new();
    let mut i: usize = 0;
    while i < ids.len()
        invariant
            i <= ids.len(),
            b@ == file_of(ids@.take(i as int)),
        decreases ids.len() - i,
    {
        push_le(&mut b, ids[i] as u64, 2);
        assert(ids@.take(i + 1).drop_last() =~= ids@.take(i as int));
        i += 1;
    }
    assert(ids@.take(i as int) =~= ids@);
    b
}

/// `n` is one more than the largest token, or 1 where there is none.
pub open spec fn is_inferred_size(n: nat, train: Seq<u16>, val: Seq<u16>) -> bool {
    &&& n >= 1
    &&& forall|i: int| 0 <= i < train.len() ==> #[trigger] train[i] < n
    &&& forall|i: int| 0 <= i < val.len() ==> #[trigger] val[i] < n
    &&& n == 1 || train.contains((n - 1) as u16) || val.contains((n - 1) as u16)
    &&& n <= 0x1_0000
}

proof fn lemma_inferred_size_at_most(n: nat, m: nat, train: Seq<u16>, val: Seq<u16>)
    requires
        is_inferred_size(n, train, val),
        is_inferred_size(m, train, val),
    ensures
        m <= n,
{
    if m > 1 {
        let top = (m - 1) as u16;
        if train.contains(top) {
            let i = choose|i: int| 0 <= i < train.len() && train[i] == top;
            assert(train[i] < n);
        } else {
            let i = choose|i: int| 0 <= i < val.len() && val[i] == top;
            assert(val[i] < n);
        }
    }
}

/// There is only one size to infer.
pub proof fn law_inferred_size_is_unique(n: nat, m: nat, train: Seq<u16>, val: Seq<u16>)
    requires
        is_inferred_size(n, train, val),
        is_inferred_size(m, train, val),
    ensures
        n == m,
{
    lemma_inferred_size_at_most(n, m, train, val);
    lemma_inferred_size_at_most(m, n, train, val);
}

/// The largest of `m` and the tokens `ids`.
fn largest(ids: &[u16], m: u16) -> (r: u16)
    ensures
        r >= m,
        forall|i: int| 0 <= i < ids@.len() ==> #[trigger] ids@[i] <= r,
        r == m || ids@.contains(r),
{
    let mut r: u16 = m;
    let mut i: usize = 0;
    while i < ids.len()
        invariant
            i <= ids.len(),
            r >= m,
            forall|j: int| 0 <= j < i ==> #[trigger] ids@[j] <= r,
            r == m || ids@.contains(r),
        decreases ids.len() - i,
    {
        if ids[i] > r {
            r = ids[i];
            assert(ids@[i as int] == r);
        }
        i += 1;
    }
    r
}

/// The vocabulary size that the tokens themselves suggest, with no characters known.
pub fn infer_vocab(train: &[u16], val: &[u16]) -> (r: (usize, Vec<String>))
    ensures
        is_inferred_size(r.0 as nat, train@, val@),
        r.1@.len() == 0,
{
    let a: u16 = largest(train, 0);
    let m: u16 = largest(val, a);
    (m as usize + 1, Vec::new())
}

/// Which part of a dataset.
#[derive(Clone, Copy)]
pub enum Split {
    Train,
    Val,
}

/// Where item `b` of a batch starts, drawn from the generator state `s`.
pub open spec fn batch_start(len: nat, s: rng::State, b: nat, block_size: nat) -> nat {
    rng::draw_below(rng::advance_by(s, b), (len - block_size) as nat)
}

/// The inputs of a batch, item after item: each is a stretch of `block_size` tokens.
pub open spec fn batch_inputs(
    data: Seq<u16>,
    s: rng::State,
    batch_size: nat,
    block_size: nat,
) -> Seq<u32> {
    Seq::new(
        batch_size * block_size,
        |k: int|
            data[batch_start(data.len(), s, (k / block_size as int) as nat, block_size) + k % (
            block_size as int)] as u32,
    )
}

/// The targets of a batch: for each input, the token that follows it.
pub open spec fn batch_targets(
    data: Seq<u16>,
    s: rng::State,
    batch_size: nat,
    block_size: nat,
) -> Seq<u32> {
    Seq::new(
        batch_size * block_size,
        |k: int|
            data[batch_start(data.len(), s, (k / block_size as int) as nat, block_size) + k % (
            block_size as int) + 1] as u32,
    )
}

/// What the metadata says, where there is any.
pub open spec fn stated_meta(meta: Option<&str>) -> Option<(nat, Seq<Seq<char>>)> {
    match meta {
        Some(s) => meta::meta_of(s@),
        None => None,
    }
}

/// Token streams for training and validation and the vocabulary they are written in.
pub struct Dataset {
    pub train: Vec<u16>,
    pub val: Vec<u16>,
    pub vocab_size: usize,
    /// The text of each token; empty where it is not known.
    pub itos: Vec<String>,
}

impl Dataset {
    /// The tokens of a part.
    pub open spec fn part(&self, split: Split) -> Seq<u16> {
        match split {
            Split::Train => self.train@,
            Split::Val => self.val@,
        }
    }

    /// A dataset from the contents of its token files and, where there is any, its
    /// metadata. Without usable metadata the vocabulary size is inferred.
    pub fn load(train_bin: &[u8], val_bin: &[u8], meta: Option<&str>) -> (r: Result<
        Self,
        DataError,
    >)
        ensures
            match r {
                Ok(d) => {
                    &&& train_bin@.len() % 2 == 0 && val_bin@.len() % 2 == 0
                    &&& d.train@ == tokens_of(train_bin@)
                    &&& d.val@ == tokens_of(val_bin@)
                    &&& match stated_meta(meta) {
                        Some((n, itos)) => d.vocab_size == n && text::views(d.itos@) == itos,
                        None => is_inferred_size(d.vocab_size as nat, d.train@, d.val@)
                            && d.itos@.len() == 0,
                    }
                },
                Err(e) => e == DataError::OddLength && (train_bin@.len() % 2 != 0
                    || val_bin@.len() % 2 != 0),
            },
    {
        let train: Vec<u16> = match load_bin(train_bin) {
            Ok(ids) => ids,
            Err(e) => {
                return Err(e);
            },
        };
        let val: Vec<u16> = match load_bin(val_bin) {
            Ok(ids) => ids,
            Err(e) => {
                return Err(e);
            },
        };
        let known: Option<(usize, Vec<String>)> = match meta {
            Some(s) => load_meta(s),
            None => None,
        };
        let (vocab_size, itos) = match known {
            Some(m) => m,
            None => infer_vocab(train.as_slice(), val.as_slice()),
        };
        Ok(Dataset { train, val, vocab_size, itos })
    }

    /// Fills `x` with random stretches of `block_size` tokens and `y` with the tokens
    /// one further on.
    pub fn get_batch(
        &self,
        split: Split,
        batch_size: usize,
        block_size: usize,
        rng: &mut Rng,
        x: &mut Vec<u32>,
        y: &mut Vec<u32>,
    )
        requires
            self.part(split).len() > block_size + 1,
            batch_size * block_size <= usize::MAX,
        ensures
            final(x)@ == batch_inputs(
                self.part(split),
                old(rng)@,
                batch_size as nat,
                block_size as nat,
            ),
            final(y)@ == batch_targets(
                self.part(split),
                old(rng)@,
                batch_size as nat,
                block_size as nat,
            ),
            final(rng)@ == rng::advance_by(old(rng)@, batch_size as nat),
    {
        let data: &Vec<u16> = match split {
            Split::Train => &self.train,
            Split::Val => &self.val,
        };
        let total: usize = batch_size * block_size;
        x.resize(total, 0);
        y.resize(total, 0);
        let ghost s = rng@;
        let ghost xs = batch_inputs(data@, s, batch_size as nat, block_size as nat);
        let ghost ys = batch_targets(data@, s, batch_size as nat, block_size as nat);
        let mut b: usize = 0;
        let mut base: usize = 0;
        while b < batch_size
            invariant
                b <= batch_size,
                base == b * block_size,
                total == batch_size * block_size,
                data@ == self.part(split),
                data@.len() > block_size + 1,
                rng@ == rng::advance_by(s, b as nat),
                s == old(rng)@,
                xs == batch_inputs(data@, s, batch_size as nat, block_size as nat),
                ys == batch_targets(data@, s, batch_size as nat, block_size as nat),
                x@.len() == total,
                y@.len() == total,
                forall|k: int| 0 <= k < base ==> x@[k] == xs[k],
                forall|k: int| 0 <= k < base ==> y@[k] == ys[k],
            decreases batch_size - b,
        {
            proof {
                assert((b + 1) * block_size <= batch_size * block_size) by (nonlinear_arith)
                    requires
                        b + 1 <= batch_size,
                ;
                assert((b + 1) * block_size == b * block_size + block_size) by (nonlinear_arith);
            }
            let ix: usize = rng.rand_below(data.len() - block_size);
            let mut i: usize = 0;
            while i < block_size
                invariant
                    b < batch_size,
                    i <= block_size,
                    base == b * block_size,
                    base + block_size <= total,
                    total == batch_size * block_size,
                    data@.len() > block_size + 1,
                    ix < data.len() - block_size,
                    ix == batch_start(data@.len(), s, b as nat, block_size as nat),
                    xs == batch_inputs(data@, s, batch_size as nat, block_size as nat),
                    ys == batch_targets(data@, s, batch_size as nat, block_size as nat),
                    x@.len() == total,
                    y@.len() == total,
                    forall|k: int| 0 <= k < base + i ==> x@[k] == xs[k],
                    forall|k: int| 0 <= k < base + i ==> y@[k] == ys[k],
                decreases block_size - i,
            {
                x[base + i] = data[ix + i] as u32;
                y[base + i] = data[ix + i + 1] as u32;
                proof {
                    lemma_fundamental_div_mod_converse(
                        base + i,
                        block_size as int,
                        b as int,
                        i as int,
                    );
                }
                i += 1;
            }
            b += 1;
            base += block_size;
        }
        assert(x@ =~= xs);
        assert(y@ =~= ys);
    }
}

/// Every item of a batch is a stretch of the data: it starts early enough that all its
/// tokens and their successors exist.
pub proof fn law_batch_in_range(len: nat, s: rng::State, b: nat, block_size: nat)
    requires
        len > block_size,
    ensures
        batch_start(len, s, b, block_size) + block_size < len,
{
    rng::law_draw_below_in_range(rng::advance_by(s, b), (len - block_size) as nat);
}

/// Within an item, the target of a token is the input that comes next.
pub proof fn law_targets_are_shifted_inputs(
    data: Seq<u16>,
    s: rng::State,
    batch_size: nat,
    block_size: nat,
    b: nat,
    i: nat,
)
    requires
        b < batch_size,
        i + 1 < block_size,
    ensures
        b * block_size + i + 1 < batch_size * block_size,
        batch_targets(data, s, batch_size, block_size)[(b * block_size + i) as int]
            == batch_inputs(data, s, batch_size, block_size)[(b * block_size + i + 1) as int],
{
    let k = (b * block_size + i) as int;
    assert((b + 1) * block_size <= batch_size * block_size) by (nonlinear_arith)
        requires
            b + 1 <= batch_size,
    ;
    assert((b + 1) * block_size == b * block_size + block_size) by (nonlinear_arith);
    lemma_fundamental_div_mod_converse(k, block_size as int, b as int, i as int);
    lemma_fundamental_div_mod_converse(k + 1, block_size as int, b as int, (i + 1) as int);
}

/// The double nearest to 0.9, times 2^53.
pub const NINE_TENTHS: u64 = 8_106_479_329_266_893;

/// How many of `n` characters go to training: `n * 0.9` in double precision, without
/// its fraction.
pub open spec fn train_len(n: nat) -> nat {
    rounding::scaled(NINE_TENTHS as nat, n)
}

/// The training part is never the whole of a text that is not empty.
pub proof fn law_split_leaves_a_rest(n: nat)
    requires
        n >= 1,
    ensures
        train_len(n) < n,
{
    rounding::law_scaled_in_range(NINE_TENTHS as nat, n);
}

/// Nine tenths of a text are for training, without the fraction: exactly, for every text of
/// less than 2^48 characters.
pub proof fn law_split_is_nine_tenths(n: nat)
    requires
        n < 0x1_0000_0000_0000,
    ensures
        train_len(n) == 9 * n / 10,
{
    let t = rounding::TWO53 as nat;
    let k = NINE_TENTHS as nat;
    let x = k * n;
    let f = 9 * n / 10;
    rounding::law_scaled_is_the_product(k, n);
    rounding::lemma_round_adds_little(n);
    rounding::lemma_round_adds_little(x);
    assert(10 * k == 9 * t + 2);
    assert(10 * x == 9 * n * t + 2 * n) by (nonlinear_arith)
        requires
            x == k * n,
            10 * k == 9 * t + 2,
    ;
    let u = rounding::ulp(x);
    let r = rounding::round53(x);
    assert(x <= n * t) by (nonlinear_arith)
        requires
            x == k * n,
            k <= t,
    ;
    assert(f * t <= x) by (nonlinear_arith)
        requires
            10 * x == 9 * n * t + 2 * n,
            10 * f <= 9 * n,
            t > 0,
    ;
    assert(10 * x <= (10 * f + 9) * t + 2 * n) by (nonlinear_arith)
        requires
            10 * x == 9 * n * t + 2 * n,
            9 * n <= 10 * f + 9,
            t > 0,
    ;
    if x >= t {
        assert(u < 0x2_0000_0000_0000) by (nonlinear_arith)
            requires
                u * (t / 2) <= x,
                x <= n * t,
                n < 0x1_0000_0000_0000,
                t == 9_007_199_254_740_992,
        ;
    } else {
        assert(r == x);
    }
    assert((10 * f + 9) * t == 10 * (f * t) + 9 * t) by (nonlinear_arith);
    assert((f + 1) * t == f * t + t) by (nonlinear_arith);
    assert(r < (f + 1) * t);
    assert(x / t >= f) by (nonlinear_arith)
        requires
            f * t <= x,
            t > 0,
    ;
    assert(r / t <= f) by (nonlinear_arith)
        requires
            r < (f + 1) * t,
            t > 0,
    ;
}

/// An item of a batch is a stretch of the data from some place on, and its targets are the
/// same stretch one further on.
pub proof fn law_items_are_stretches(
    data: Seq<u16>,
    s: rng::State,
    batch_size: nat,
    block_size: nat,
    b: nat,
)
    requires
        b < batch_size,
        block_size < data.len(),
    ensures
        exists|from: int|
            0 <= from < data.len() - block_size && #[trigger] is_stretch(
                data,
                from,
                batch_inputs(data, s, batch_size, block_size),
                b * block_size,
                block_size,
            ) && is_stretch(
                data,
                from + 1,
                batch_targets(data, s, batch_size, block_size),
                b * block_size,
                block_size,
            ),
{
    let from = batch_start(data.len(), s, b, block_size) as int;
    law_batch_in_range(data.len(), s, b, block_size);
    let x = batch_inputs(data, s, batch_size, block_size);
    let y = batch_targets(data, s, batch_size, block_size);
    assert forall|i: int| 0 <= i < block_size implies #[trigger] x[b * block_size + i] == data[from
        + i] && y[b * block_size + i] == data[from + 1 + i] by {
        assert((b + 1) * block_size <= batch_size * block_size) by (nonlinear_arith)
            requires
                b + 1 <= batch_size,
        ;
        assert((b + 1) * block_size == b * block_size + block_size) by (nonlinear_arith);
        lemma_fundamental_div_mod_converse(
            b * block_size + i,
            block_size as int,
            b as int,
            i,
        );
    }
    assert(is_stretch(data, from, x, b * block_size, block_size));
    assert forall|i: int| 0 <= i < block_size implies #[trigger] y[b * block_size + i] == data[from
        + 1 + i] by {
        assert(x[b * block_size + i] == data[from + i]);
    }
    assert(is_stretch(data, from + 1, y, b * block_size, block_size));
}

/// Each item starts at a place of its own draw: the draw's part of the places there are, or one
/// further on.
pub proof fn law_items_start_by_their_draws(len: nat, s: rng::State, b: nat, block_size: nat)
    requires
        block_size < len < 0x20_0000_0000_0000,
    ensures
        ({
            let k = rng::draw53(rng::advance_by(s, b)) * ((len - block_size) as nat)
                / 0x20_0000_0000_0000;
            k <= batch_start(len, s, b, block_size) <= k + 1
        }),
{
    rng::law_draw_below_is_proportional(rng::advance_by(s, b), (len - block_size) as nat);
}

/// The `n` tokens from `at` on are those of the data from `from` on.
pub open spec fn is_stretch(data: Seq<u16>, from: int, tokens: Seq<u32>, at: nat, n: nat) -> bool {
    forall|i: int| 0 <= i < n ==> #[trigger] tokens[at + i] == data[from + i]
}

/// The training tokens of a text.
pub open spec fn train_ids(cs: Seq<char>, s: Seq<char>) -> Seq<u16> {
    alphabet::encoded(cs, s).take(train_len(s.len()) as int)
}

/// The validation tokens of a text.
pub open spec fn val_ids(cs: Seq<char>, s: Seq<char>) -> Seq<u16> {
    alphabet::encoded(cs, s).skip(train_len(s.len()) as int)
}

/// A text turned into a dataset: its alphabet, its tokens and the files that hold them.
pub struct Prepared {
    pub chars: Vec<char>,
    pub vocab_size: usize,
    /// The text of each token.
    pub itos: Vec<String>,
    pub train: Vec<u16>,
    pub val: Vec<u16>,
    pub train_bin: Vec<u8>,
    pub val_bin: Vec<u8>,
    pub meta: String,
}

/// The string of each character.
fn strings_of(cs: &[char]) -> (v: Vec<String>)
    ensures
        text::views(v@) == meta::singles(cs@),
{
    let mut v: Vec<String> = Vec::new();
    let mut i: usize = 0;
    while i < cs.len()
        invariant
            i <= cs.len(),
            v@.len() == i,
            forall|j: int| 0 <= j < i ==> (#[trigger] v@[j])@ == seq![cs@[j]],
        decreases cs.len() - i,
    {
        let mut s = String::new();
        s.push(cs[i]);
        assert(s@ =~= seq![cs@[i as int]]);
        v.push(s);
        i += 1;
    }
    assert(text::views(v@) =~= meta::singles(cs@));
    v
}

/// Makes a dataset of a text: the distinct characters are the vocabulary, nine tenths
/// of the characters are for training and the rest for validation.
pub fn prepare(s: &str) -> (p: Prepared)
    ensures
        alphabet::is_alphabet(p.chars@, s@),
        p.vocab_size == p.chars@.len(),
        text::views(p.itos@) == meta::singles(p.chars@),
        p.train@ == train_ids(p.chars@, s@),
        p.val@ == val_ids(p.chars@, s@),
        p.train_bin@ == file_of(p.train@),
        p.val_bin@ == file_of(p.val@),
        p.meta@ == meta::meta_text(p.chars@),
{
    let data = chars_of(s);
    let chars = alphabet_of(data.as_slice());
    let ids = encode(chars.as_slice(), data.as_slice());
    let n: usize = data.len();
    let n_train: usize = rounding::scale(NINE_TENTHS, n);
    let mut train: Vec<u16> = Vec::new();
    let mut val: Vec<u16> = Vec::new();
    let mut i: usize = 0;
    while i < n
        invariant
            i <= n,
            n == ids@.len(),
            n_train <= n,
            i <= n_train ==> train@ == ids@.take(i as int) && val@.len() == 0,
            i > n_train ==> train@ == ids@.take(n_train as int) && val@ == ids@.subrange(
                n_train as int,
                i as int,
            ),
        decreases n - i,
    {
        if i < n_train {
            train.push(ids[i]);
        } else {
            val.push(ids[i]);
        }
        i += 1;
    }
    assert(train@ =~= ids@.take(n_train as int));
    assert(val@ =~= ids@.skip(n_train as int));
    let train_bin = write_u16_bin(train.as_slice());
    let val_bin = write_u16_bin(val.as_slice());
    let meta = meta_json(chars.as_slice());
    let itos = strings_of(chars.as_slice());
    let vocab_size: usize = chars.len();
    Prepared { chars, vocab_size, itos, train, val, train_bin, val_bin, meta }
}

/// The files made of a text load as the tokens of that text, training before validation,
/// and their metadata gives the vocabulary back. Where 16 bits are enough for the alphabet,
/// the tokens stand for the characters of the text.
pub proof fn law_prepared_files_load(cs: Seq<char>, s: Seq<char>)
    requires
        alphabet::is_alphabet(cs, s),
    ensures
        tokens_of(file_of(train_ids(cs, s))) + tokens_of(file_of(val_ids(cs, s)))
            == alphabet::encoded(cs, s),
        cs.len() <= 0x1_0000 ==> alphabet::decoded(
            cs,
            tokens_of(file_of(train_ids(cs, s))) + tokens_of(file_of(val_ids(cs, s))),
        ) == s,
        meta::meta_of(meta::meta_text(cs)) == Some((cs.len(), meta::singles(cs))),
{
    law_file_reads_back(train_ids(cs, s));
    law_file_reads_back(val_ids(cs, s));
    alphabet::law_alphabet_size(cs);
    meta::law_meta_reads_back(cs);
    if s.len() > 0 {
        law_split_leaves_a_rest(s.len());
    } else {
        assert(train_len(0) == 0) by {
            rounding::lemma_scaled_zero(NINE_TENTHS as nat);
        }
    }
    assert(train_ids(cs, s) + val_ids(cs, s) =~= alphabet::encoded(cs, s));
    if cs.len() <= 0x1_0000 {
        alphabet::law_decode_undoes_encode(cs, s);
    }
}

/// Which of some candidates is taken: the first that is there, or the first of all where none
/// is.
pub open spec fn is_pick(there: Seq<bool>, i: int) -> bool {
    if there.contains(true) {
        &&& 0 <= i < there.len()
        &&& there[i]
        &&& forall|j: int| 0 <= j < i ==> !#[trigger] there[j]
    } else {
        i == 0
    }
}

/// Picks one of some candidates by which of them are there.
pub fn pick(there: &[bool]) -> (i: usize)
    ensures
        is_pick(there@, i as int),
{
    let mut i: usize = 0;
    while i < there.len()
        invariant
            i <= there.len(),
            forall|j: int| 0 <= j < i ==> !#[trigger] there@[j],
        decreases there.len() - i,
    {
        if there[i] {
            assert(there@.contains(true));
            return i;
        }
        i += 1;
    }
    0
}

} // verus!
