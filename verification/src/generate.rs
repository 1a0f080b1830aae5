//! Generation: one token after the other, each drawn from the model's prediction.
use crate::cache;
use crate::cache::{can_pass, Cache};
use crate::causal;
use crate::forward;
use crate::layout;
use crate::layout::GptConfig;
use crate::model::Gpt;
use crate::ops;
use crate::ops::softmax_row;
use crate::rng;
use crate::rng::Rng;
use crate::scalar;
use crate::scalar::{Num, Scalar, Term};
use crate::settled;
use crate::topk;
use crate::topk::top_k_mask;
use vstd::prelude::*;

verus! {

/// The last row of a matrix with `v` columns and `n` rows, each number divided by the
/// temperature.
pub open spec fn last_row<T>(logits: Seq<Term<T>>, n: int, v: int, temperature: Term<T>) -> Seq<
    Term<T>,
> {
    Seq::new(
        v as nat,
        |i: int| scalar::quotient(logits[(n - 1) * v + i], temperature),
    )
}

/// The numbers that the mask keeps; minus infinity for the others.
pub open spec fn kept<T>(row: Seq<Term<T>>, mask: Seq<bool>) -> Seq<Term<T>> {
    Seq::new(
        row.len(),
        |i: int|
            if mask[i] {
                row[i]
            } else {
                Term::Bits(0xff80_0000)
            },
    )
}

/// `bits` are possible bit patterns of the numbers.
pub open spec fn patterns<T: Scalar>(row: Seq<Term<T>>, bits: Seq<u32>) -> bool {
    &&& bits.len() == row.len()
    &&& forall|i: int| 0 <= i < row.len() ==> scalar::may_have_bits(row[i], #[trigger] bits[i])
}

/// `mask` tells which numbers of the row stay: its `top_k` largest; with `top_k` zero, or
/// in a row of one, all.
pub open spec fn stay<T: Scalar>(row: Seq<Term<T>>, top_k: nat, mask: Seq<bool>) -> bool {
    ||| (top_k == 0 || row.len() == 1) && mask == Seq::new(row.len(), |i: int| true)
    ||| top_k > 0 && exists|bits: Seq<u32>| #[trigger]
        patterns(row, bits) && topk::no_nan(bits) && mask == topk::among_largest(bits, top_k)
}

/// The row cannot be filtered: a number in it is a NaN.
pub open spec fn unfilterable<T: Scalar>(row: Seq<Term<T>>, top_k: nat) -> bool {
    top_k > 0 && row.len() >= 2 && exists|bits: Seq<u32>| #[trigger]
        patterns(row, bits) && !topk::no_nan(bits)
}

/// `next` is the first of the places in the mask where the running sum of the
/// probabilities exceeds `u`, or the last of them where it does at none.
pub open spec fn is_draw<T: Scalar>(
    probs: Seq<Term<T>>,
    mask: Seq<bool>,
    u: Term<T>,
    next: int,
) -> bool {
    &&& 0 <= next < probs.len()
    &&& mask[next]
    &&& forall|j: int|
        0 <= j < next && #[trigger] mask[j] ==> scalar::may_be_less(
            u,
            ops::total(probs, (j + 1) as nat),
            false,
        )
    &&& {
        ||| scalar::may_be_less(u, ops::total(probs, (next + 1) as nat), true)
        ||| {
            &&& scalar::may_be_less(u, ops::total(probs, (next + 1) as nat), false)
            &&& forall|j: int| next < j < probs.len() ==> !#[trigger] mask[j]
        }
    }
}

/// Draws one of the places in the mask with the given probabilities, from the uniform
/// number `u`.
pub fn draw<T: Scalar>(probs: &[Num<T>], mask: &[bool], u: Num<T>) -> (next: usize)
    requires
        mask@.len() == probs@.len(),
        mask@.contains(true),
    ensures
        is_draw(scalar::terms(probs@), mask@, u@, next as int),
{
    let ghost pt = scalar::terms(probs@);
    let n: usize = probs.len();
    let mut cum: Num<T> = Num::bits(0);
    let mut last: usize = 0;
    let mut i: usize = 0;
    while i < n
        invariant
            i <= n,
            n == probs.len(),
            n == mask.len(),
            pt == scalar::terms(probs@),
            cum@ == ops::total(pt, i as nat),
            forall|j: int|
                0 <= j < i && #[trigger] mask@[j] ==> scalar::may_be_less(
                    u@,
                    ops::total(pt, (j + 1) as nat),
                    false,
                ),
            (last < i && mask@[last as int]) || forall|j: int| 0 <= j < i ==> !#[trigger] mask@[j],
            forall|j: int| last < j < i ==> !#[trigger] mask@[j],
        decreases n - i,
    {
        cum = cum.plus(probs[i]);
        if mask[i] {
            if u.less(cum) {
                return i;
            }
            last = i;
        }
        i += 1;
    }
    proof {
        let j = choose|j: int| 0 <= j < mask@.len() && mask@[j] == true;
        assert(mask@[j]);
    }
    last
}

/// The row that the tokens in `ctx` predict: the logits of the last of them, over the
/// temperature.
pub open spec fn predicts<T: Scalar>(
    params: Seq<Term<T>>,
    cfg: GptConfig,
    ctx: Seq<u32>,
    temperature: Term<T>,
    s: rng::State,
    row: Seq<Term<T>>,
) -> bool {
    exists|k: Cache<T>| #[trigger]
        forward::forward_done(params, cfg, ctx, None, false, s, k, scalar::zero()) && row
            == last_row(
            scalar::terms(k.logits@),
            ctx.len() as int,
            cfg.vocab_size as int,
            temperature,
        )
}

/// The tokens settle what they predict, wherever the generator is.
pub proof fn law_prediction_is_settled<T: Scalar>(
    params: Seq<Term<T>>,
    cfg: GptConfig,
    ctx: Seq<u32>,
    temperature: Term<T>,
    s1: rng::State,
    s2: rng::State,
    a: Seq<Term<T>>,
    b: Seq<Term<T>>,
)
    requires
        forward::runnable(cfg, ctx),
        ctx.len() <= usize::MAX,
        predicts(params, cfg, ctx, temperature, s1, a),
        predicts(params, cfg, ctx, temperature, s2, b),
    ensures
        a == b,
{
    let n = ctx.len() as int;
    let v = cfg.vocab_size as int;
    let k1 = choose|k: Cache<T>| #[trigger]
        forward::forward_done(params, cfg, ctx, None, false, s1, k, scalar::zero()) && a
            == last_row(scalar::terms(k.logits@), n, v, temperature);
    let k2 = choose|k: Cache<T>| #[trigger]
        forward::forward_done(params, cfg, ctx, None, false, s2, k, scalar::zero()) && b
            == last_row(scalar::terms(k.logits@), n, v, temperature);
    causal::law_tokens_settle_logits(params, cfg, ctx, s1, s2, k1, k2);
}

/// The part of the tokens that the model sees: the last of them, up to the block size.
pub open spec fn context(idx: Seq<u32>, block_size: nat) -> Seq<u32> {
    if idx.len() <= block_size {
        idx
    } else {
        idx.skip(idx.len() - block_size)
    }
}

/// How tokens are drawn.
pub struct Sampling<T> {
    pub temperature: Term<T>,
    pub top_k: nat,
}

/// `next` may follow the tokens `idx` when the generator is in the state `s`: it is drawn
/// among the tokens that stay, with the probabilities of these.
pub open spec fn may_follow<T: Scalar>(
    params: Seq<Term<T>>,
    cfg: GptConfig,
    how: Sampling<T>,
    idx: Seq<u32>,
    s: rng::State,
    next: u32,
) -> bool {
    exists|row: Seq<Term<T>>, mask: Seq<bool>, place: int| #[trigger]
        predicts(params, cfg, context(idx, cfg.block_size as nat), how.temperature, s, row)
            && #[trigger] stay(row, how.top_k, mask) && #[trigger] is_draw(
            ops::softmax(kept(row, mask)),
            mask,
            Term::<T>::Bits(rng::uniform_single(s)),
            place,
        ) && next == place as u32
}

proof fn lemma_follows<T: Scalar>(
    params: Seq<Term<T>>,
    cfg: GptConfig,
    how: Sampling<T>,
    idx: Seq<u32>,
    s: rng::State,
    place: int,
    row: Seq<Term<T>>,
    mask: Seq<bool>,
)
    requires
        predicts(params, cfg, context(idx, cfg.block_size as nat), how.temperature, s, row),
        stay(row, how.top_k, mask),
        is_draw(
            ops::softmax(kept(row, mask)),
            mask,
            Term::<T>::Bits(rng::uniform_single(s)),
            place,
        ),
    ensures
        may_follow(params, cfg, how, idx, s, place as u32),
{
    assert(is_draw(
        ops::softmax(kept(row, mask)),
        mask,
        Term::<T>::Bits(rng::uniform_single(s)),
        place,
    ));
}

/// A token that may follow is among the `top_k` that the prediction rates highest: fewer
/// than `top_k` are rated above it. With `top_k` one, none is.
pub proof fn law_follower_is_among_largest<T: Scalar>(
    params: Seq<Term<T>>,
    cfg: GptConfig,
    how: Sampling<T>,
    idx: Seq<u32>,
    s: rng::State,
    next: u32,
)
    requires
        may_follow(params, cfg, how, idx, s, next),
        how.top_k > 0,
        2 <= cfg.vocab_size <= u32::MAX,
    ensures
        next < cfg.vocab_size,
        exists|row: Seq<Term<T>>, bits: Seq<u32>| #[trigger]
            predicts(params, cfg, context(idx, cfg.block_size as nat), how.temperature, s, row)
                && #[trigger] patterns(row, bits) && topk::no_nan(bits) && topk::beaten_by(
                bits,
                bits[next as int],
                bits.len(),
            ) < how.top_k,
{
    let (row, mask, place) = choose|row: Seq<Term<T>>, mask: Seq<bool>, place: int| #[trigger]
        predicts(params, cfg, context(idx, cfg.block_size as nat), how.temperature, s, row)
            && #[trigger] stay(row, how.top_k, mask) && #[trigger] is_draw(
            ops::softmax(kept(row, mask)),
            mask,
            Term::<T>::Bits(rng::uniform_single(s)),
            place,
        ) && next == place as u32;
    assert(row.len() == cfg.vocab_size);
    let bits = choose|bits: Seq<u32>| #[trigger]
        patterns(row, bits) && topk::no_nan(bits) && mask == topk::among_largest(
            bits,
            how.top_k,
        );
    assert(patterns(row, bits));
    assert(mask[next as int]);
}

/// No token can follow the tokens `idx`: the prediction holds a NaN.
pub open spec fn is_stuck<T: Scalar>(
    params: Seq<Term<T>>,
    cfg: GptConfig,
    how: Sampling<T>,
    idx: Seq<u32>,
    s: rng::State,
) -> bool {
    exists|row: Seq<Term<T>>| #[trigger]
        predicts(params, cfg, context(idx, cfg.block_size as nat), how.temperature, s, row)
            && unfilterable(row, how.top_k)
}

/// Each token from place `from` on may follow those before it.
pub open spec fn continues<T: Scalar>(
    params: Seq<Term<T>>,
    cfg: GptConfig,
    how: Sampling<T>,
    idx: Seq<u32>,
    from: nat,
    s: rng::State,
) -> bool {
    forall|i: int|
        from <= i < idx.len() ==> may_follow(
            params,
            cfg,
            how,
            idx.take(i),
            rng::advance_by(s, (i - from) as nat),
            #[trigger] idx[i],
        )
}

/// Continuing twice is continuing once: tokens drawn up to place `m`, and then the rest from
/// the state that the generator has reached there, are tokens drawn in one go.
pub proof fn law_continuing_twice<T: Scalar>(
    params: Seq<Term<T>>,
    cfg: GptConfig,
    how: Sampling<T>,
    idx: Seq<u32>,
    from: nat,
    m: nat,
    s: rng::State,
)
    requires
        from <= m <= idx.len(),
    ensures
        continues(params, cfg, how, idx, from, s) <==> continues(
            params,
            cfg,
            how,
            idx.take(m as int),
            from,
            s,
        ) && continues(params, cfg, how, idx, m, rng::advance_by(s, (m - from) as nat)),
{
    let first = idx.take(m as int);
    let mid = rng::advance_by(s, (m - from) as nat);
    let at = |i: int| rng::advance_by(s, (i - from) as nat);
    let on = |i: int| rng::advance_by(mid, (i - m) as nat);
    assert forall|i: int| m <= i implies #[trigger] on(i) == at(i) by {
        layout::lemma_advance_adds(s, (m - from) as nat, (i - m) as nat);
    }
    if continues(params, cfg, how, idx, from, s) {
        assert forall|i: int| from <= i < first.len() implies may_follow(
            params,
            cfg,
            how,
            first.take(i),
            rng::advance_by(s, (i - from) as nat),
            #[trigger] first[i],
        ) by {
            assert(idx.take(i) =~= first.take(i));
            assert(idx[i] == first[i]);
        }
        assert forall|i: int| m <= i < idx.len() implies may_follow(
            params,
            cfg,
            how,
            idx.take(i),
            rng::advance_by(mid, (i - m) as nat),
            #[trigger] idx[i],
        ) by {
            assert(on(i) == at(i));
        }
    }
    if continues(params, cfg, how, first, from, s) && continues(params, cfg, how, idx, m, mid) {
        assert forall|i: int| from <= i < idx.len() implies may_follow(
            params,
            cfg,
            how,
            idx.take(i),
            rng::advance_by(s, (i - from) as nat),
            #[trigger] idx[i],
        ) by {
            if i < m {
                assert(idx.take(i) =~= first.take(i));
                assert(first[i] == idx[i]);
            } else {
                assert(on(i) == at(i));
            }
        }
    }
}

/// `idx` is the prompt, followed by `n` tokens that the model may have drawn from the state `s`
/// on.
pub open spec fn generated<T: Scalar>(
    params: Seq<Term<T>>,
    cfg: GptConfig,
    how: Sampling<T>,
    prompt: Seq<u32>,
    n: nat,
    s: rng::State,
    idx: Seq<u32>,
) -> bool {
    &&& idx.len() == prompt.len() + n
    &&& idx.take(prompt.len() as int) == prompt
    &&& continues(params, cfg, how, idx, prompt.len(), s)
}

/// Before `n` tokens were drawn, no token could follow: a prediction held a NaN.
pub open spec fn stalls<T: Scalar>(
    params: Seq<Term<T>>,
    cfg: GptConfig,
    how: Sampling<T>,
    prompt: Seq<u32>,
    n: nat,
    s: rng::State,
) -> bool {
    exists|idx: Seq<u32>, k: nat|
        k < n && #[trigger] generated(params, cfg, how, prompt, k, s, idx) && is_stuck(
            params,
            cfg,
            how,
            idx,
            rng::advance_by(s, k),
        )
}

/// Shorter sequences fit where a longer one does.
proof fn lemma_shorter_fits(cfg: GptConfig, n: nat, longer: nat)
    requires
        1 <= n <= longer <= cfg.block_size,
        cache::pass_fits(cfg, longer),
    ensures
        cache::pass_fits(cfg, n),
        cache::dims_of(cfg, n).t == n,
        cache::dims_of(cfg, n).b == 1,
{
    let big = cache::dims_of(cfg, longer);
    let d = cache::dims_of(cfg, n);
    let t = longer as int;
    let m = n as int;
    assert(longer / longer == 1) by {
        vstd::arithmetic::div_mod::lemma_div_by_self(longer as int);
    }
    assert(n / n == 1) by {
        vstd::arithmetic::div_mod::lemma_div_by_self(n as int);
    }
    assert(big.t == longer && big.b == 1);
    assert(d.t == n && d.b == 1);
    let c = cfg.n_embd as int;
    let h = cfg.n_head as int;
    let v = cfg.vocab_size as int;
    assert(1 * t == t) by (nonlinear_arith);
    assert(1 * m == m) by (nonlinear_arith);
    assert(1 * h == h) by (nonlinear_arith);
    assert(m * (3 * c) <= t * (3 * c)) by (nonlinear_arith)
        requires
            m <= t,
            c >= 0,
    ;
    assert(m * (4 * c) <= t * (4 * c)) by (nonlinear_arith)
        requires
            m <= t,
            c >= 0,
    ;
    assert(h * m <= h * t) by (nonlinear_arith)
        requires
            m <= t,
            h >= 0,
    ;
    assert(h * m * m <= h * t * t) by (nonlinear_arith)
        requires
            0 <= m <= t,
            0 <= h,
            h * m <= h * t,
    ;
    assert(m * v <= t * v) by (nonlinear_arith)
        requires
            m <= t,
            v >= 0,
    ;
}

/// Which numbers of a row stay; `None` where a NaN stands in the way.
fn largest<T: Scalar>(row: &Vec<Num<T>>, top_k: usize) -> (r: Option<Vec<bool>>)
    requires
        row@.len() >= 1,
    ensures
        match r {
            Some(mask) => {
                &&& stay(scalar::terms(row@), top_k as nat, mask@)
                &&& mask@.len() == row@.len()
                &&& mask@.contains(true)
            },
            None => unfilterable(scalar::terms(row@), top_k as nat),
        },
{
    let ghost r0 = scalar::terms(row@);
    let n: usize = row.len();
    if top_k == 0 {
        let mut all: Vec<bool> = Vec::new();
        let mut i: usize = 0;
        while i < n
            invariant
                i <= n,
                all@ == Seq::new(i as nat, |j: int| true),
            decreases n - i,
        {
            all.push(true);
            i += 1;
            assert(all@ =~= Seq::new(i as nat, |j: int| true));
        }
        assert(all@[0]);
        return Some(all);
    }
    let mut bits: Vec<u32> = Vec::new();
    let mut i: usize = 0;
    while i < n
        invariant
            i <= n,
            n == row@.len(),
            r0 == scalar::terms(row@),
            bits@.len() == i,
            forall|j: int| 0 <= j < i ==> scalar::may_have_bits(r0[j], #[trigger] bits@[j]),
        decreases n - i,
    {
        bits.push(row[i].pattern());
        i += 1;
    }
    assert(patterns(r0, bits@));
    match top_k_mask(bits.as_slice(), top_k) {
        Some(mask) => {
            proof {
                if n == 1 && mask@ == seq![true] {
                    assert(mask@ =~= Seq::new(n as nat, |j: int| true));
                    assert(mask@[0]);
                } else {
                    topk::lemma_largest_stays(bits@, top_k as nat);
                }
            }
            Some(mask)
        },
        None => None,
    }
}

/// Sets the numbers that do not stay to minus infinity.
fn cut<T: Scalar>(row: &mut Vec<Num<T>>, mask: &[bool])
    requires
        old(row)@.len() == mask@.len(),
    ensures
        scalar::terms(final(row)@) == kept(scalar::terms(old(row)@), mask@),
        final(row)@.len() == old(row)@.len(),
{
    let ghost r0 = scalar::terms(row@);
    let n: usize = row.len();
    let mut i: usize = 0;
    while i < n
        invariant
            i <= n,
            n == row@.len(),
            n == r0.len(),
            n == mask@.len(),
            forall|j: int|
                0 <= j < n ==> (#[trigger] row@[j])@ == if j < i && !mask@[j] {
                    Term::Bits(0xff80_0000)
                } else {
                    r0[j]
                },
        decreases n - i,
    {
        if !mask[i] {
            row[i] = Num::bits(0xff80_0000);
        }
        i += 1;
    }
    assert(scalar::terms(row@) =~= kept(r0, mask@));
}

/// How many of `n` tokens the model sees.
pub open spec fn seen(cfg: GptConfig, n: nat) -> nat {
    if n <= cfg.block_size {
        n
    } else {
        cfg.block_size as nat
    }
}

/// The model can be asked for the token that follows: there is one before it, all before it
/// are known, and a pass over those that the model sees can run.
pub open spec fn can_follow(cfg: GptConfig, idx: Seq<u32>) -> bool {
    &&& idx.len() >= 1
    &&& cfg.block_size >= 1
    &&& cache::pass_fits(cfg, seen(cfg, idx.len()))
    &&& forall|i: int| 0 <= i < idx.len() ==> #[trigger] idx[i] < cfg.vocab_size
}

/// The model can be asked for the tokens that follow, up to the last: the longest pass can
/// run. It can always be asked for none.
pub open spec fn can_generate(cfg: GptConfig, prompt: Seq<u32>, max_new_tokens: nat) -> bool {
    max_new_tokens > 0 ==> {
        &&& prompt.len() >= 1
        &&& prompt.len() + max_new_tokens <= usize::MAX
        &&& cfg.block_size >= 1
        &&& cache::pass_fits(cfg, seen(cfg, (prompt.len() + max_new_tokens - 1) as nat))
        &&& forall|i: int| 0 <= i < prompt.len() ==> #[trigger] prompt[i] < cfg.vocab_size
    }
}

/// Whether the model can be asked for the tokens that follow.
pub fn can_start(cfg: &GptConfig, prompt: &[u32], max_new_tokens: usize) -> (r: bool)
    requires
        cfg.n_head >= 1,
    ensures
        r == can_generate(*cfg, prompt@, max_new_tokens as nat),
{
    if max_new_tokens == 0 {
        return true;
    }
    if prompt.len() == 0 || prompt.len() > usize::MAX - max_new_tokens || cfg.block_size == 0 {
        return false;
    }
    let longest: usize = prompt.len() + (max_new_tokens - 1);
    let context: usize = if longest <= cfg.block_size {
        longest
    } else {
        cfg.block_size
    };
    if !can_pass(cfg, context) {
        return false;
    }
    let mut i: usize = 0;
    while i < prompt.len()
        invariant
            i <= prompt.len(),
            max_new_tokens > 0,
            forall|j: int| 0 <= j < i ==> #[trigger] prompt@[j] < cfg.vocab_size,
        decreases prompt.len() - i,
    {
        if prompt[i] as usize >= cfg.vocab_size {
            assert(!(prompt@[i as int] < cfg.vocab_size));
            return false;
        }
        i += 1;
    }
    true
}

impl<T: Scalar> Gpt<T> {
    /// The token that follows `idx`; `None` where the prediction holds a NaN and its largest
    /// numbers cannot be told.
    pub fn next_token(
        &self,
        idx: &Vec<u32>,
        temperature: Num<T>,
        top_k: usize,
        rng: &mut Rng,
        cache: &mut Cache<T>,
    ) -> (r: Option<u32>)
        requires
            self.ok(),
            can_follow(self.cfg, idx@),
        ensures
            ({
                let how = Sampling { temperature: temperature@, top_k: top_k as nat };
                let params = scalar::terms(self.params@);
                match r {
                    Some(next) => {
                        &&& may_follow(params, self.cfg, how, idx@, old(rng)@, next)
                        &&& next < self.cfg.vocab_size
                        &&& final(rng)@ == rng::advance(old(rng)@)
                    },
                    None => is_stuck(params, self.cfg, how, idx@, old(rng)@) && top_k > 0,
                }
            }),
    {
        let ghost s = rng@;
        let ghost params = scalar::terms(self.params@);
        let ghost how = Sampling { temperature: temperature@, top_k: top_k as nat };
        let v: usize = self.cfg.vocab_size;
        let len: usize = idx.len();
        let start: usize = if len <= self.cfg.block_size {
            0
        } else {
            len - self.cfg.block_size
        };
        let ctx = vstd::slice::slice_subrange(idx.as_slice(), start, len);
        let n: usize = len - start;
        proof {
            assert(ctx@ =~= context(idx@, self.cfg.block_size as nat));
            lemma_shorter_fits(self.cfg, n as nat, n as nat);
            forward::law_evaluation_draws_nothing::<T>(
                self.cfg,
                s,
                cache::dims_of(self.cfg, n as nat),
                self.cfg.n_layer as nat,
            );
            assert(n as nat % n as nat == 0) by {
                vstd::arithmetic::div_mod::lemma_mod_self_0(n as int);
            }
            assert forall|i: int| 0 <= i < ctx@.len() implies #[trigger] ctx@[i]
                < self.cfg.vocab_size by {
                assert(idx@[start + i] < self.cfg.vocab_size);
            }
            assert(idx@[0] < self.cfg.vocab_size);
        }
        let _loss: Num<T> = self.forward(ctx, None, false, rng, cache);
        let size: usize = cache.logits.len();
        proof {
            assert(1 * n == n);
            ops::lemma_row_end(n - 1, n as int, v as int);
        }
        let base: usize = (n - 1) * v;
        let ghost lt = scalar::terms(cache.logits@);
        let mut row: Vec<Num<T>> = Vec::new();
        let mut i: usize = 0;
        while i < v
            invariant
                i <= v,
                size == cache.logits@.len(),
                base == (n - 1) * v,
                base + v <= size,
                lt == scalar::terms(cache.logits@),
                row@.len() == i,
                forall|j: int|
                    0 <= j < i ==> (#[trigger] row@[j])@ == last_row(
                        lt,
                        n as int,
                        v as int,
                        temperature@,
                    )[j],
            decreases v - i,
        {
            row.push(cache.logits[base + i].over(temperature));
            i += 1;
        }
        let ghost rt = scalar::terms(row@);
        assert(rt =~= last_row(lt, n as int, v as int, temperature@));
        assert(predicts(params, self.cfg, ctx@, temperature@, s, rt));
        let mask: Vec<bool> = match largest(&row, top_k) {
            Some(mask) => mask,
            None => {
                return None;
            },
        };
        cut(&mut row, mask.as_slice());
        softmax_row(row.as_mut_slice());
        let u: Num<T> = Num::bits(rng.uniform_f32());
        let place: usize = draw(row.as_slice(), mask.as_slice(), u);
        let next: u32 = place as u32;
        proof {
            lemma_follows(params, self.cfg, how, idx@, s, place as int, rt, mask@);
            assert((place as u32) <= place) by (bit_vector);
        }
        Some(next)
    }

    /// The prompt, followed by `max_new_tokens` tokens of the model's own; `None` where a
    /// prediction holds a NaN and its largest numbers cannot be told.
    pub fn generate(
        &self,
        prompt: &[u32],
        max_new_tokens: usize,
        temperature: Num<T>,
        top_k: usize,
        rng: &mut Rng,
    ) -> (r: Option<Vec<u32>>)
        requires
            self.ok(),
            can_generate(self.cfg, prompt@, max_new_tokens as nat),
        ensures
            ({
                let how = Sampling { temperature: temperature@, top_k: top_k as nat };
                let params = scalar::terms(self.params@);
                let n = max_new_tokens as nat;
                match r {
                    Some(idx) => {
                        &&& generated(params, self.cfg, how, prompt@, n, old(rng)@, idx@)
                        &&& final(rng)@ == rng::advance_by(old(rng)@, n)
                    },
                    None => top_k > 0 && stalls(params, self.cfg, how, prompt@, n, old(rng)@),
                }
            }),
    {
        let ghost s = rng@;
        let ghost params = scalar::terms(self.params@);
        let ghost how = Sampling { temperature: temperature@, top_k: top_k as nat };
        let ghost from = prompt@.len();
        let mut idx: Vec<u32> = Vec::new();
        idx.extend_from_slice(prompt);
        assert(idx@ =~= prompt@);
        assert(idx@.take(from as int) =~= prompt@);
        let mut cache: Cache<T> = Cache::default();
        let mut n: usize = 0;
        while n < max_new_tokens
            invariant
                n <= max_new_tokens,
                self.ok(),
                params == scalar::terms(self.params@),
                how == (Sampling { temperature: temperature@, top_k: top_k as nat }),
                s == old(rng)@,
                from == prompt@.len(),
                can_generate(self.cfg, prompt@, max_new_tokens as nat),
                idx@.len() == from + n,
                idx@.take(from as int) == prompt@,
                max_new_tokens > 0 ==> forall|i: int|
                    0 <= i < idx@.len() ==> #[trigger] idx@[i] < self.cfg.vocab_size,
                continues(params, self.cfg, how, idx@, from, s),
                rng@ == rng::advance_by(s, n as nat),
            decreases max_new_tokens - n,
        {
            let ghost before = idx@;
            proof {
                lemma_shorter_fits(
                    self.cfg,
                    seen(self.cfg, idx@.len()),
                    seen(self.cfg, (from + max_new_tokens - 1) as nat),
                );
            }
            match self.next_token(&idx, temperature, top_k, rng, &mut cache) {
                Some(next) => {
                    idx.push(next);
                },
                None => {
                    assert(generated(params, self.cfg, how, prompt@, n as nat, s, before));
                    return None;
                },
            }
            proof {
                assert(idx@.take(from as int) =~= before.take(from as int));
                assert forall|i: int| from <= i < idx@.len() implies may_follow(
                    params,
                    self.cfg,
                    how,
                    idx@.take(i),
                    rng::advance_by(s, (i - from) as nat),
                    #[trigger] idx@[i],
                ) by {
                    if i < before.len() {
                        assert(idx@.take(i) =~= before.take(i));
                        assert(before[i] == idx@[i]);
                    } else {
                        assert(idx@.take(i) =~= before);
                    }
                }
            }
            n += 1;
        }
        Some(idx)
    }
}

/// A pass over what the model sees can run.
proof fn lemma_context_runs(cfg: GptConfig, idx: Seq<u32>)
    requires
        can_follow(cfg, idx),
    ensures
        forward::runnable(cfg, context(idx, cfg.block_size as nat)),
        context(idx, cfg.block_size as nat).len() <= usize::MAX,
{
    let ctx = context(idx, cfg.block_size as nat);
    let n = ctx.len();
    lemma_shorter_fits(cfg, n, n);
    vstd::arithmetic::div_mod::lemma_mod_self_0(n as int);
    assert forall|i: int| 0 <= i < ctx.len() implies #[trigger] ctx[i] < cfg.vocab_size by {
        assert(ctx[i] == idx[idx.len() - n + i]);
    }
}

/// A token that may follow is known.
proof fn lemma_follower_is_known<T: Scalar>(
    params: Seq<Term<T>>,
    cfg: GptConfig,
    how: Sampling<T>,
    idx: Seq<u32>,
    s: rng::State,
    next: u32,
)
    requires
        may_follow(params, cfg, how, idx, s, next),
    ensures
        next < cfg.vocab_size,
{
    let (row, mask, place) = choose|row: Seq<Term<T>>, mask: Seq<bool>, place: int| #[trigger]
        predicts(params, cfg, context(idx, cfg.block_size as nat), how.temperature, s, row)
            && #[trigger] stay(row, how.top_k, mask) && #[trigger] is_draw(
            ops::softmax(kept(row, mask)),
            mask,
            Term::<T>::Bits(rng::uniform_single(s)),
            place,
        ) && next == place as u32;
    assert(row.len() == cfg.vocab_size);
    let at = place as usize;
    assert((at as u32) <= at) by (bit_vector);
}

/// Bit patterns of a row are settled.
proof fn lemma_patterns_are_settled<T: Scalar>(row: Seq<Term<T>>, a: Seq<u32>, b: Seq<u32>)
    requires
        settled::single_valued::<T>(),
        patterns(row, a),
        patterns(row, b),
    ensures
        a == b,
{
    assert forall|i: int| 0 <= i < row.len() implies a[i] == b[i] by {
        settled::law_formulas_have_one_pattern(row[i], a[i], b[i]);
    }
    assert(a =~= b);
}

/// Which numbers of a row stay is settled.
proof fn lemma_stay_is_settled<T: Scalar>(
    row: Seq<Term<T>>,
    top_k: nat,
    a: Seq<bool>,
    b: Seq<bool>,
)
    requires
        settled::single_valued::<T>(),
        row.len() >= 1,
        stay(row, top_k, a),
        stay(row, top_k, b),
    ensures
        a == b,
{
    let all = Seq::new(row.len(), |i: int| true);
    if top_k > 0 && row.len() == 1 {
        assert forall|bits: Seq<u32>| patterns(row, bits) && topk::no_nan(bits) implies all
            == #[trigger] topk::among_largest(bits, top_k) by {
            topk::lemma_largest_stays(bits, top_k);
            let m = topk::among_largest(bits, top_k);
            let i = choose|i: int| 0 <= i < m.len() && m[i] == true;
            assert(m[0]);
            assert(m =~= all);
        }
    } else if top_k > 0 {
        let p = choose|bits: Seq<u32>| #[trigger]
            patterns(row, bits) && topk::no_nan(bits) && a == topk::among_largest(bits, top_k);
        let q = choose|bits: Seq<u32>| #[trigger]
            patterns(row, bits) && topk::no_nan(bits) && b == topk::among_largest(bits, top_k);
        lemma_patterns_are_settled(row, p, q);
    }
}

/// Which place is drawn is settled.
proof fn lemma_draw_is_settled<T: Scalar>(
    probs: Seq<Term<T>>,
    mask: Seq<bool>,
    u: Term<T>,
    a: int,
    b: int,
)
    requires
        settled::single_valued::<T>(),
        is_draw(probs, mask, u, a),
        is_draw(probs, mask, u, b),
    ensures
        a == b,
{
    if a != b {
        let first = if a < b {
            a
        } else {
            b
        };
        assert(mask[a] && mask[b]);
        settled::law_comparisons_have_one_outcome(
            u,
            ops::total(probs, (first + 1) as nat),
            true,
            false,
        );
    }
}

/// Where the operations on numbers have one outcome each, tokens, state and sampling settle
/// the token that follows.
pub proof fn law_follower_is_settled<T: Scalar>(
    params: Seq<Term<T>>,
    cfg: GptConfig,
    how: Sampling<T>,
    idx: Seq<u32>,
    s: rng::State,
    a: u32,
    b: u32,
)
    requires
        settled::single_valued::<T>(),
        can_follow(cfg, idx),
        may_follow(params, cfg, how, idx, s, a),
        may_follow(params, cfg, how, idx, s, b),
    ensures
        a == b,
{
    let ctx = context(idx, cfg.block_size as nat);
    let u = Term::<T>::Bits(rng::uniform_single(s));
    lemma_context_runs(cfg, idx);
    let (r1, m1, p1) = choose|row: Seq<Term<T>>, mask: Seq<bool>, place: int| #[trigger]
        predicts(params, cfg, ctx, how.temperature, s, row) && #[trigger] stay(
            row,
            how.top_k,
            mask,
        ) && #[trigger] is_draw(ops::softmax(kept(row, mask)), mask, u, place) && a == place as u32;
    let (r2, m2, p2) = choose|row: Seq<Term<T>>, mask: Seq<bool>, place: int| #[trigger]
        predicts(params, cfg, ctx, how.temperature, s, row) && #[trigger] stay(
            row,
            how.top_k,
            mask,
        ) && #[trigger] is_draw(ops::softmax(kept(row, mask)), mask, u, place) && b == place as u32;
    law_prediction_is_settled(params, cfg, ctx, how.temperature, s, s, r1, r2);
    assert(ops::softmax(kept(r1, m1)).len() == r1.len());
    lemma_stay_is_settled(r1, how.top_k, m1, m2);
    lemma_draw_is_settled(ops::softmax(kept(r1, m1)), m1, u, p1, p2);
}

/// Where the operations on numbers have one outcome each, either a token may follow or none
/// can, never both.
pub proof fn law_follower_excludes_stuck<T: Scalar>(
    params: Seq<Term<T>>,
    cfg: GptConfig,
    how: Sampling<T>,
    idx: Seq<u32>,
    s: rng::State,
    next: u32,
)
    requires
        settled::single_valued::<T>(),
        can_follow(cfg, idx),
        may_follow(params, cfg, how, idx, s, next),
    ensures
        !is_stuck(params, cfg, how, idx, s),
{
    if is_stuck(params, cfg, how, idx, s) {
        let ctx = context(idx, cfg.block_size as nat);
        let u = Term::<T>::Bits(rng::uniform_single(s));
        lemma_context_runs(cfg, idx);
        let (r1, m1, p1) = choose|row: Seq<Term<T>>, mask: Seq<bool>, place: int| #[trigger]
            predicts(params, cfg, ctx, how.temperature, s, row) && #[trigger] stay(
                row,
                how.top_k,
                mask,
            ) && #[trigger] is_draw(ops::softmax(kept(row, mask)), mask, u, place) && next
                == place as u32;
        let r2 = choose|row: Seq<Term<T>>| #[trigger]
            predicts(params, cfg, ctx, how.temperature, s, row) && unfilterable(row, how.top_k);
        law_prediction_is_settled(params, cfg, ctx, how.temperature, s, s, r1, r2);
        let good = choose|bits: Seq<u32>| #[trigger]
            patterns(r1, bits) && topk::no_nan(bits) && m1 == topk::among_largest(
                bits,
                how.top_k,
            );
        let bad = choose|bits: Seq<u32>| #[trigger] patterns(r1, bits) && !topk::no_nan(bits);
        lemma_patterns_are_settled(r1, good, bad);
    }
}

/// The tokens up to place `i` of a run of generation can be followed.
proof fn lemma_run_can_follow<T: Scalar>(
    params: Seq<Term<T>>,
    cfg: GptConfig,
    how: Sampling<T>,
    prompt: Seq<u32>,
    n: nat,
    s: rng::State,
    idx: Seq<u32>,
    i: int,
)
    requires
        can_generate(cfg, prompt, n),
        generated(params, cfg, how, prompt, n, s, idx),
        prompt.len() <= i < idx.len(),
    ensures
        can_follow(cfg, idx.take(i)),
{
    let from = prompt.len();
    lemma_shorter_fits(cfg, seen(cfg, i as nat), seen(cfg, (from + n - 1) as nat));
    assert forall|j: int| 0 <= j < i implies #[trigger] idx.take(i)[j] < cfg.vocab_size by {
        if j < from {
            assert(idx.take(from as int)[j] == prompt[j]);
        } else {
            lemma_follower_is_known(
                params,
                cfg,
                how,
                idx.take(j),
                rng::advance_by(s, (j - from) as nat),
                idx[j],
            );
        }
    }
}

/// Two runs of generation agree up to place `i`.
#[verifier::spinoff_prover]
#[verifier::rlimit(60)]
proof fn lemma_runs_agree<T: Scalar>(
    params: Seq<Term<T>>,
    cfg: GptConfig,
    how: Sampling<T>,
    prompt: Seq<u32>,
    n: nat,
    s: rng::State,
    x: Seq<u32>,
    y: Seq<u32>,
    i: int,
)
    requires
        settled::single_valued::<T>(),
        can_generate(cfg, prompt, n),
        generated(params, cfg, how, prompt, n, s, x),
        generated(params, cfg, how, prompt, n, s, y),
        prompt.len() <= i <= x.len(),
    ensures
        x.take(i) == y.take(i),
    decreases i,
{
    let from = prompt.len();
    if i > from {
        let j = i - 1;
        lemma_runs_agree(params, cfg, how, prompt, n, s, x, y, j);
        lemma_run_can_follow(params, cfg, how, prompt, n, s, x, j);
        let at = rng::advance_by(s, (j - from) as nat);
        assert(may_follow(params, cfg, how, x.take(j), at, x[j]));
        assert(may_follow(params, cfg, how, y.take(j), at, y[j]));
        law_follower_is_settled(params, cfg, how, x.take(j), at, x[j], y[j]);
        assert(x.take(i) =~= x.take(j).push(x[j]));
        assert(y.take(i) =~= y.take(j).push(y[j]));
    }
}

/// Where the operations on numbers have one outcome each, generation is settled: two runs with
/// the same model, prompt, sampling, length and state of the generator give the same tokens.
pub proof fn law_generation_is_settled<T: Scalar>(
    params: Seq<Term<T>>,
    cfg: GptConfig,
    how: Sampling<T>,
    prompt: Seq<u32>,
    n: nat,
    s: rng::State,
    x: Seq<u32>,
    y: Seq<u32>,
)
    requires
        settled::single_valued::<T>(),
        can_generate(cfg, prompt, n),
        generated(params, cfg, how, prompt, n, s, x),
        generated(params, cfg, how, prompt, n, s, y),
    ensures
        x == y,
{
    lemma_runs_agree(params, cfg, how, prompt, n, s, x, y, x.len() as int);
    assert(x.take(x.len() as int) =~= x);
    assert(y.take(y.len() as int) =~= y);
}

/// Where the operations on numbers have one outcome each, a run of generation that can be
/// finished does not stall.
pub proof fn law_finished_run_does_not_stall<T: Scalar>(
    params: Seq<Term<T>>,
    cfg: GptConfig,
    how: Sampling<T>,
    prompt: Seq<u32>,
    n: nat,
    s: rng::State,
    x: Seq<u32>,
)
    requires
        settled::single_valued::<T>(),
        can_generate(cfg, prompt, n),
        generated(params, cfg, how, prompt, n, s, x),
    ensures
        !stalls(params, cfg, how, prompt, n, s),
{
    if stalls(params, cfg, how, prompt, n, s) {
        let (idx, k) = choose|idx: Seq<u32>, k: nat|
            k < n && #[trigger] generated(params, cfg, how, prompt, k, s, idx) && is_stuck(
                params,
                cfg,
                how,
                idx,
                rng::advance_by(s, k),
            );
        let from = prompt.len();
        let i = from + k;
        lemma_run_can_follow(params, cfg, how, prompt, n, s, x, i as int);
        law_continuing_twice(params, cfg, how, x, from, i, s);
        let first = x.take(i as int);
        assert(first.take(from as int) =~= x.take(from as int));
        assert(generated(params, cfg, how, prompt, k, s, first));
        if k > 0 {
            lemma_shorter_fits(
                cfg,
                seen(cfg, (from + k - 1) as nat),
                seen(cfg, (from + n - 1) as nat),
            );
        }
        law_generation_is_settled(params, cfg, how, prompt, k, s, first, idx);
        assert(may_follow(params, cfg, how, first, rng::advance_by(s, k), x[i as int]));
        law_follower_excludes_stuck(params, cfg, how, first, rng::advance_by(s, k), x[i as int]);
    }
}

/// Where the operations on numbers have one outcome each, generating `a` tokens and then, from
/// the result and the state that the generator has reached, `b` more is generating `a + b`.
pub proof fn law_generating_twice<T: Scalar>(
    params: Seq<Term<T>>,
    cfg: GptConfig,
    how: Sampling<T>,
    prompt: Seq<u32>,
    a: nat,
    b: nat,
    s: rng::State,
    first: Seq<u32>,
    second: Seq<u32>,
    whole: Seq<u32>,
)
    requires
        settled::single_valued::<T>(),
        can_generate(cfg, prompt, a + b),
        generated(params, cfg, how, prompt, a, s, first),
        generated(params, cfg, how, first, b, rng::advance_by(s, a), second),
        generated(params, cfg, how, prompt, a + b, s, whole),
    ensures
        second == whole,
        rng::advance_by(rng::advance_by(s, a), b) == rng::advance_by(s, a + b),
{
    let from = prompt.len();
    law_continuing_twice(params, cfg, how, second, from, first.len(), s);
    assert(second.take(from as int) =~= first.take(from as int));
    law_generation_is_settled(params, cfg, how, prompt, a + b, s, second, whole);
    layout::lemma_advance_adds(s, a, b);
}

} // verus!
