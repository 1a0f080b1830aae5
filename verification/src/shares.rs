//! What temperature and drawing do to a prediction, read in exact arithmetic.
use crate::cache::Cache;
use crate::causal;
use crate::exact;
use crate::exact::Exact;
use crate::forward;
use crate::generate;
use crate::ieee;
use crate::layout::GptConfig;
use crate::meaning;
use crate::norm_slopes;
use crate::ops;
use crate::rng;
use crate::scalar;
use crate::scalar::{Scalar, Term, Unary};
use crate::topk;
use vstd::prelude::*;

verus! {

/// The row that a token is drawn from, times the temperature, is the last row of the logits.
pub proof fn law_row_times_temperature_is_logits<T: Scalar>(
    m: Exact<T>,
    params: Seq<Term<T>>,
    cfg: GptConfig,
    ctx: Seq<u32>,
    temperature: Term<T>,
    s: rng::State,
    row: Seq<Term<T>>,
    t: rng::State,
    k: Cache<T>,
    i: int,
)
    requires
        forward::runnable(cfg, ctx),
        ctx.len() <= usize::MAX,
        m.value(temperature) != 0real,
        generate::predicts(params, cfg, ctx, temperature, s, row),
        forward::forward_done(params, cfg, ctx, None, false, t, k, scalar::zero()),
        0 <= i < cfg.vocab_size,
    ensures
        row.len() == cfg.vocab_size,
        exact::times(m.value(row[i]), m.value(temperature)) == m.value(
            k.logits@[(ctx.len() - 1) * cfg.vocab_size + i]@,
        ),
{
    let n = ctx.len() as int;
    let v = cfg.vocab_size as int;
    let k1 = choose|k: Cache<T>| #[trigger]
        forward::forward_done(params, cfg, ctx, None, false, s, k, scalar::zero()) && row
            == generate::last_row(scalar::terms(k.logits@), n, v, temperature);
    causal::law_tokens_settle_logits(params, cfg, ctx, s, t, k1, k);
    let at = (n - 1) * v + i;
    ops::lemma_row_end(n - 1, n, v);
    let logit = scalar::terms(k.logits@)[at];
    assert(scalar::terms(k.logits@).len() == n * v);
    assert(logit == k.logits@[at]@);
    assert(row[i] == scalar::quotient(logit, temperature));
    exact::lemma_divides(m.value(logit), m.value(temperature));
}

/// A lower temperature sets the numbers of a row further apart: of two tokens, the likelier
/// one leads by more, and its share, against that of the other, is larger. Filtering makes no
/// difference to tokens that stay.
pub proof fn law_lower_temperature_favours_likelier<T: Scalar>(
    m: Exact<T>,
    params: Seq<Term<T>>,
    cfg: GptConfig,
    ctx: Seq<u32>,
    low: Term<T>,
    high: Term<T>,
    s: rng::State,
    row_low: Seq<Term<T>>,
    row_high: Seq<Term<T>>,
    mask_low: Seq<bool>,
    mask_high: Seq<bool>,
    i: int,
    j: int,
)
    requires
        m.ok(),
        m.takes_exponentials(),
        forward::runnable(cfg, ctx),
        ctx.len() <= usize::MAX,
        0real < m.value(low) < m.value(high),
        generate::predicts(params, cfg, ctx, low, s, row_low),
        generate::predicts(params, cfg, ctx, high, s, row_high),
        0 <= i < cfg.vocab_size,
        0 <= j < cfg.vocab_size,
        mask_low[i] && mask_low[j] && mask_high[i] && mask_high[j],
        m.value(row_high[i]) > m.value(row_high[j]),
    ensures
        m.value(row_low[i]) - m.value(row_low[j]) > m.value(row_high[i]) - m.value(row_high[j]),
        exact::times(
            m.value(ops::softmax(generate::kept(row_low, mask_low))[i]),
            m.value(ops::softmax(generate::kept(row_high, mask_high))[j]),
        ) > exact::times(
            m.value(ops::softmax(generate::kept(row_high, mask_high))[i]),
            m.value(ops::softmax(generate::kept(row_low, mask_low))[j]),
        ),
{
    let n = ctx.len() as int;
    let v = cfg.vocab_size as int;
    let k = choose|k: Cache<T>| #[trigger]
        forward::forward_done(params, cfg, ctx, None, false, s, k, scalar::zero()) && row_low
            == generate::last_row(scalar::terms(k.logits@), n, v, low);
    law_row_times_temperature_is_logits(m, params, cfg, ctx, low, s, row_low, s, k, i);
    law_row_times_temperature_is_logits(m, params, cfg, ctx, low, s, row_low, s, k, j);
    law_row_times_temperature_is_logits(m, params, cfg, ctx, high, s, row_high, s, k, i);
    law_row_times_temperature_is_logits(m, params, cfg, ctx, high, s, row_high, s, k, j);
    let x = m.value(row_low[i]) - m.value(row_low[j]);
    let y = m.value(row_high[i]) - m.value(row_high[j]);
    let (a, b) = (m.value(low), m.value(high));
    exact::lemma_distributes(a, m.value(row_low[i]), m.value(row_low[j]));
    exact::lemma_distributes(b, m.value(row_high[i]), m.value(row_high[j]));
    assert(exact::times(x, a) == exact::times(y, b));
    exact::lemma_orders(x, y, a);
    exact::lemma_orders(a, b, y);
    exact::lemma_commutes(a, y);
    exact::lemma_commutes(b, y);
    assert(x > y);
    let kl = generate::kept(row_low, mask_low);
    let kh = generate::kept(row_high, mask_high);
    meaning::law_softmax_shares_by_exponentials(m, kl);
    meaning::law_softmax_shares_by_exponentials(m, kh);
    let (pi, pj) = (m.value(ops::softmax(kl)[i]), m.value(ops::softmax(kl)[j]));
    let (qi, qj) = (m.value(ops::softmax(kh)[i]), m.value(ops::softmax(kh)[j]));
    assert(kl[i] == row_low[i] && kl[j] == row_low[j]);
    assert(kh[i] == row_high[i] && kh[j] == row_high[j]);
    let ex = (m.image)(Unary::Exp, x);
    let ey = (m.image)(Unary::Exp, y);
    assert(pi == exact::times(pj, ex));
    assert(qi == exact::times(qj, ey));
    assert(ey < ex);
    exact::lemma_swaps(pj, ex, qj);
    exact::lemma_swaps(qj, ey, pj);
    exact::lemma_commutes(pj, qj);
    let both = exact::times(pj, qj);
    exact::lemma_orders(0real, pj, qj);
    exact::lemma_units(qj);
    exact::lemma_orders(ey, ex, both);
    exact::lemma_commutes(both, ex);
    exact::lemma_commutes(both, ey);
}

proof fn lemma_nothing_between(f: spec_fn(int) -> real, a: int, b: int)
    requires
        0 <= a <= b,
        forall|k: int| a <= k < b ==> #[trigger] f(k) == 0real,
    ensures
        exact::sum(b, f) == exact::sum(a, f),
    decreases b,
{
    if a < b {
        lemma_nothing_between(f, a, b - 1);
        assert(f(b - 1) == 0real);
    }
}

/// The last place below `n` that is in the mask, or -1.
spec fn last_in(mask: Seq<bool>, n: int) -> int
    decreases n,
{
    if n <= 0 {
        -1
    } else if mask[n - 1] {
        n - 1
    } else {
        last_in(mask, n - 1)
    }
}

proof fn lemma_last_in(mask: Seq<bool>, n: int)
    requires
        0 <= n <= mask.len(),
    ensures
        -1 <= last_in(mask, n) < n,
        last_in(mask, n) >= 0 ==> mask[last_in(mask, n)],
        forall|k: int| last_in(mask, n) < k < n ==> !#[trigger] mask[k],
    decreases n,
{
    if n > 0 {
        lemma_last_in(mask, n - 1);
    }
}

/// A place is drawn where the uniform number falls into its stretch: laid end to end, the
/// probabilities before it reach at most to `u`, and together with its own beyond it. So each
/// place is drawn with its probability.
pub proof fn law_draw_falls_into_its_stretch<T: Scalar>(
    m: Exact<T>,
    probs: Seq<Term<T>>,
    mask: Seq<bool>,
    u: Term<T>,
    next: int,
)
    requires
        m.ok(),
        generate::is_draw(probs, mask, u, next),
        mask.len() == probs.len(),
        0real <= m.value(u) < 1real,
        exact::sum(probs.len() as int, |k: int| m.value(probs[k])) == 1real,
        forall|k: int| 0 <= k < probs.len() && !mask[k] ==> m.value(#[trigger] probs[k]) == 0real,
        forall|k: nat|
            k <= probs.len() ==> exact::less_is_exact(m, u, #[trigger] ops::total(probs, k)),
    ensures
        mask[next],
        exact::sum(next, |k: int| m.value(probs[k])) <= m.value(u),
        m.value(u) < exact::sum(next + 1, |k: int| m.value(probs[k])),
{
    let f = |k: int| m.value(probs[k]);
    let n = probs.len() as int;
    assert forall|k: nat| k <= n implies m.value(#[trigger] ops::total(probs, k)) == exact::sum(
        k as int,
        f,
    ) by {
        norm_slopes::lemma_total(m, probs, k);
        exact::lemma_same(k as int, |i: int| m.value(probs[i]), f);
    }
    let j = last_in(mask, next);
    lemma_last_in(mask, next);
    lemma_nothing_between(f, j + 1, next);
    if j >= 0 {
        let below = ops::total(probs, (j + 1) as nat);
        assert(exact::less_is_exact(m, u, below));
        assert(scalar::may_be_less(u, below, false));
    }
    let here = ops::total(probs, (next + 1) as nat);
    assert(exact::less_is_exact(m, u, here));
    if !scalar::may_be_less(u, here, true) {
        assert forall|k: int| next + 1 <= k < n implies #[trigger] f(k) == 0real by {
            assert(!mask[k]);
        }
        lemma_nothing_between(f, next + 1, n);
    }
}

/// Where the shares, as they are rounded, do not reach up to the uniform number, the last place
/// that stays is drawn.
pub proof fn law_draw_falls_back_to_the_last<T: Scalar>(
    probs: Seq<Term<T>>,
    mask: Seq<bool>,
    u: Term<T>,
    next: int,
)
    requires
        generate::is_draw(probs, mask, u, next),
        forall|k: nat|
            k <= probs.len() ==> !scalar::may_be_less(u, #[trigger] ops::total(probs, k), true),
    ensures
        mask[next],
        forall|j: int| next < j < probs.len() ==> !#[trigger] mask[j],
{
    assert(!scalar::may_be_less(u, ops::total(probs, (next + 1) as nat), true));
}

/// Shares out of which a place can be drawn as in exact arithmetic: they add up to one, what is
/// filtered out has none, and comparing `u` with their running sums comes out exactly.
pub open spec fn drawable<T: Scalar>(
    m: Exact<T>,
    probs: Seq<Term<T>>,
    mask: Seq<bool>,
    u: Term<T>,
) -> bool {
    &&& exact::sum(probs.len() as int, |k: int| m.value(probs[k])) == 1real
    &&& forall|k: int|
        0 <= k < probs.len() && !mask[k] ==> m.value(#[trigger] probs[k]) == 0real
    &&& forall|k: nat|
        k <= probs.len() ==> exact::less_is_exact(m, u, #[trigger] ops::total(probs, k))
}

/// A token follows where the uniform number of the state falls into its stretch of the shares
/// of the tokens that stay.
pub proof fn law_followers_are_drawn_by_share<T: Scalar>(
    m: Exact<T>,
    params: Seq<Term<T>>,
    cfg: GptConfig,
    how: generate::Sampling<T>,
    idx: Seq<u32>,
    s: rng::State,
    next: u32,
)
    requires
        m.ok(),
        cfg.vocab_size <= u32::MAX,
        generate::may_follow(params, cfg, how, idx, s, next),
        0real <= (m.bits)(rng::uniform_single(s)) < 1real,
        forall|row: Seq<Term<T>>, mask: Seq<bool>|
            #![trigger generate::stay(row, how.top_k, mask)]
            generate::predicts(
                params,
                cfg,
                generate::context(idx, cfg.block_size as nat),
                how.temperature,
                s,
                row,
            ) && generate::stay(row, how.top_k, mask) ==> drawable(
                m,
                ops::softmax(generate::kept(row, mask)),
                mask,
                Term::Bits(rng::uniform_single(s)),
            ),
    ensures
        exists|row: Seq<Term<T>>, mask: Seq<bool>|
            {
                let probs = ops::softmax(generate::kept(row, mask));
                let u = (m.bits)(rng::uniform_single(s));
                &&& generate::predicts(
                    params,
                    cfg,
                    generate::context(idx, cfg.block_size as nat),
                    how.temperature,
                    s,
                    row,
                )
                &&& #[trigger] generate::stay(row, how.top_k, mask)
                &&& mask[next as int]
                &&& exact::sum(next as int, |k: int| m.value(probs[k])) <= u
                &&& u < exact::sum(next + 1, |k: int| m.value(probs[k]))
            },
{
    let ctx = generate::context(idx, cfg.block_size as nat);
    let u: Term<T> = Term::Bits(rng::uniform_single(s));
    assert(m.value(u) == (m.bits)(rng::uniform_single(s)));
    let (row, mask, place) = choose|row: Seq<Term<T>>, mask: Seq<bool>, place: int| #[trigger]
        generate::predicts(params, cfg, ctx, how.temperature, s, row) && #[trigger] generate::stay(
            row,
            how.top_k,
            mask,
        ) && #[trigger] generate::is_draw(
            ops::softmax(generate::kept(row, mask)),
            mask,
            Term::<T>::Bits(rng::uniform_single(s)),
            place,
        ) && next == place as u32;
    let probs = ops::softmax(generate::kept(row, mask));
    assert(row.len() == cfg.vocab_size);
    assert(probs.len() == row.len());
    assert(mask.len() == row.len());
    assert(drawable(m, probs, mask, u));
    law_draw_falls_into_its_stretch(m, probs, mask, u, place);
    assert(next as int == place);
    assert(generate::stay(row, how.top_k, mask));
}

/// The tokens that the model sees are the last ones: as many as the block has room for, or
/// all of them.
pub proof fn law_context_is_the_end(idx: Seq<u32>, block_size: nat)
    ensures
        generate::context(idx, block_size).len() == if idx.len() < block_size {
            idx.len()
        } else {
            block_size
        },
        forall|i: int|
            0 <= i < generate::context(idx, block_size).len() ==> #[trigger] generate::context(
                idx,
                block_size,
            )[generate::context(idx, block_size).len() - 1 - i] == idx[idx.len() - 1 - i],
{
}

/// A token that is filtered out counts as the least of all numbers, minus infinity; the others
/// count as they are.
pub proof fn law_filtered_are_below_all<T>(row: Seq<Term<T>>, mask: Seq<bool>, i: int)
    requires
        0 <= i < row.len(),
    ensures
        generate::kept(row, mask).len() == row.len(),
        mask[i] ==> generate::kept(row, mask)[i] == row[i],
        !mask[i] ==> exists|b: u32|
            {
                &&& generate::kept(row, mask)[i] == Term::<T>::Bits(b)
                &&& !#[trigger] ieee::single_nan(b)
                &&& forall|x: u32|
                    !ieee::single_nan(x) && x != b ==> #[trigger] ieee::single_less(b, x)
            },
{
    if !mask[i] {
        let b = 0xff80_0000u32;
        assert forall|x: u32| !ieee::single_nan(x) && x != b implies #[trigger] ieee::single_less(
            b,
            x,
        ) by {
            ieee::lemma_single_rank(b, x);
        }
        assert(!ieee::single_nan(b));
        assert(generate::kept(row, mask)[i] == Term::<T>::Bits(b));
    }
}

/// Without a limit, and with one that no row exceeds, every token stays; with any other, the
/// tokens that stay are larger than those that do not.
pub proof fn law_filter_keeps_the_largest<T: Scalar>(
    row: Seq<Term<T>>,
    top_k: nat,
    mask: Seq<bool>,
    i: int,
    j: int,
)
    requires
        generate::stay(row, top_k, mask),
        0 <= i < row.len(),
        0 <= j < row.len(),
    ensures
        mask.len() == row.len(),
        top_k == 0 || top_k >= row.len() ==> mask[i],
        mask[i] && !mask[j] ==> exists|a: u32, b: u32|
            #[trigger] scalar::may_have_bits(row[i], a) && #[trigger] scalar::may_have_bits(
                row[j],
                b,
            ) && ieee::single_less(b, a),
{
    if !(top_k == 0 || row.len() == 1) || !(mask == Seq::new(row.len(), |x: int| true)) {
        let bits = choose|bits: Seq<u32>| #[trigger]
            generate::patterns(row, bits) && topk::no_nan(bits) && mask == topk::among_largest(
                bits,
                top_k,
            );
        topk::law_larger_ones_are_kept(bits, top_k, i, j);
        assert(scalar::may_have_bits(row[i], bits[i]));
        assert(scalar::may_have_bits(row[j], bits[j]));
    }
}

/// Generated tokens start with the prompt and are as many more as asked for; each of these may
/// follow all tokens before it, with a draw of its own.
pub proof fn law_generation_extends_the_prompt<T: Scalar>(
    params: Seq<Term<T>>,
    cfg: GptConfig,
    how: generate::Sampling<T>,
    prompt: Seq<u32>,
    n: nat,
    s: rng::State,
    idx: Seq<u32>,
    i: int,
)
    requires
        generate::generated(params, cfg, how, prompt, n, s, idx),
    ensures
        idx.len() == prompt.len() + n,
        0 <= i < prompt.len() ==> idx[i] == prompt[i],
        prompt.len() <= i < idx.len() ==> generate::may_follow(
            params,
            cfg,
            how,
            idx.take(i),
            rng::advance_by(s, (i - prompt.len()) as nat),
            idx[i],
        ),
{
    if 0 <= i < prompt.len() {
        assert(idx.take(prompt.len() as int)[i] == idx[i]);
    }
}

} // verus!
