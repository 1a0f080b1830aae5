//! What dropout does to a pass, read in exact arithmetic.
use crate::attention;
use crate::attention::Dims;
use crate::block;
use crate::block::DropTerms;
use crate::cache;
use crate::cache::{BlockTerms, Cache};
use crate::exact;
use crate::exact::Exact;
use crate::forward;
use crate::ieee;
use crate::layers;
use crate::layout;
use crate::layout::{BlockR, GptConfig};
use crate::meaning;
use crate::ops;
use crate::rng;
use crate::scalar;
use crate::scalar::{Scalar, Term};
use vstd::prelude::*;

verus! {

/// In training with the dropout rate `p`, other than one, the scale of what is kept makes up
/// for what is dropped: the scale times `1 - p` is one. Both the embeddings and the blocks
/// drop at the rate `p` and scale by this factor. Without dropout nothing is scaled.
pub proof fn law_scale_makes_up_for_dropout<T>(m: Exact<T>, cfg: GptConfig, training: bool)
    requires
        m.ok(),
        (m.bits)(cfg.dropout) != 1real,
    ensures
        ({
            let p = (m.bits)(cfg.dropout);
            let emb = forward::emb_drop::<T>(cfg, training);
            let blocks = forward::block_drop::<T>(cfg, training);
            &&& emb.on == forward::drops(cfg, training)
            &&& blocks.on == forward::drops(cfg, training)
            &&& m.value(blocks.scale) == m.value(emb.scale)
            &&& m.value(emb.scale) == m.value(forward::drop_scale::<T>(cfg, training))
            &&& emb.on ==> {
                &&& exact::times(m.value(emb.scale), 1real - p) == 1real
                &&& m.value(emb.p) == p
                &&& m.value(blocks.p) == p
            }
            &&& !emb.on ==> m.value(emb.scale) == 1real
        }),
{
    let p = (m.bits)(cfg.dropout);
    let one = scalar::one::<T>();
    let rate: Term<T> = Term::Bits(cfg.dropout);
    assert(m.value(one) == 1real && m.value(rate) == p);
    if forward::drops(cfg, training) {
        let stays = scalar::difference(one, rate);
        assert(m.value(stays) == 1real - p);
        let scale = forward::drop_scale::<T>(cfg, training);
        assert(scale == scalar::quotient(one, stays));
        let s = m.value(scale);
        assert(s == exact::over(1real, 1real - p));
        exact::lemma_divides(1real, 1real - p);
        exact::lemma_units(1real - p);
        assert(s != 0real);
        let back = scalar::quotient(one, scale);
        assert(m.value(back) == exact::over(1real, s));
        exact::lemma_divides(1real, s);
        exact::lemma_commutes(s, 1real - p);
        exact::lemma_cancels(m.value(back), 1real - p, s);
        let again = scalar::difference(one, back);
        assert(m.value(again) == 1real - m.value(back));
    }
}

/// Dropout is on in training alone, and only where its rate is a number above zero.
pub proof fn law_dropout_is_for_training(cfg: GptConfig, training: bool)
    ensures
        forward::drops(cfg, training) <==> training && 0 < cfg.dropout <= 0x7f80_0000,
{
    ieee::lemma_single_rank(0, cfg.dropout);
}

/// How dropout at the rate `p` leaves the number `before` at place `i`: where it is off, as it
/// is; where the mask keeps it, as the number that times `1 - p` is `before`, so that on
/// average the number stays; else as zero.
pub open spec fn leaves(
    on: bool,
    mask: Seq<u8>,
    i: int,
    p: real,
    before: real,
    after: real,
) -> bool {
    if on {
        &&& mask[i] == 0 || mask[i] == 1
        &&& mask[i] == 1 ==> exact::times(after, 1real - p) == before
        &&& mask[i] == 0 ==> after == 0real
    } else {
        &&& mask.len() == 0
        &&& after == before
    }
}

proof fn lemma_left<T: Scalar>(
    m: Exact<T>,
    x: Seq<Term<T>>,
    mask: Seq<u8>,
    n: nat,
    drop: DropTerms<T>,
    s: rng::State,
    p: real,
    i: int,
)
    requires
        m.ok(),
        block::mask_for(mask, n, drop, s),
        x.len() == n,
        0 <= i < n,
        drop.on ==> exact::times(m.value(drop.scale), 1real - p) == 1real,
    ensures
        leaves(
            drop.on,
            mask,
            i,
            p,
            m.value(x[i]),
            m.value(block::dropped(x, mask, drop)[i]),
        ),
{
    if drop.on {
        assert(mask[i] == 0 || mask[i] == 1);
        let y = block::dropped(x, mask, drop)[i];
        if mask[i] == 1 {
            assert(y == scalar::product(x[i], drop.scale));
            exact::lemma_associates(m.value(x[i]), m.value(drop.scale), 1real - p);
            exact::lemma_units(m.value(x[i]));
        } else {
            assert(y == scalar::zero::<T>());
            assert(m.value(y) == 0real);
        }
    }
}

/// The embeddings of a pass, before dropout the sum of the embedding of the token and that of
/// its position, after it as dropout leaves them.
pub proof fn law_embeddings_behind_dropout<T: Scalar>(
    m: Exact<T>,
    params: Seq<Term<T>>,
    cfg: GptConfig,
    tokens: Seq<u32>,
    training: bool,
    s: rng::State,
    k: Cache<T>,
    row: int,
    e: int,
)
    requires
        m.ok(),
        (m.bits)(cfg.dropout) != 1real,
        forward::activations_done(params, cfg, tokens, training, s, k),
        0 <= row < tokens.len(),
        0 <= e < cfg.n_embd,
    ensures
        ({
            let t = cache::dims_of(cfg, tokens.len()).t as int;
            let c = cfg.n_embd as int;
            leaves(
                forward::drops(cfg, training),
                k.emb_mask@,
                row * c + e,
                (m.bits)(cfg.dropout),
                m.value(params[tokens[row] * c + e]) + m.value(
                    params[cfg.vocab_size * c + (row % t) * c + e],
                ),
                m.value(k.emb@[row * c + e]@),
            )
        }),
{
    let d = cache::dims_of(cfg, tokens.len());
    let c = cfg.n_embd as int;
    let n = tokens.len() as int;
    let i = row * c + e;
    ops::lemma_row_end(row, n, c);
    ops::lemma_cell(row, c, e);
    law_scale_makes_up_for_dropout(m, cfg, training);
    let x = forward::embedded(params, cfg, tokens, d.t as int);
    assert(x.len() == n * c);
    let drop = forward::emb_drop::<T>(cfg, training);
    lemma_left(m, x, k.emb_mask@, (n * c) as nat, drop, s, (m.bits)(cfg.dropout), i);
    assert(scalar::terms(k.emb@)[i] == k.emb@[i]@);
    let tok = params[tokens[row] * c + e];
    let pos = params[cfg.vocab_size * c + (row % d.t as int) * c + e];
    assert(x[i] == scalar::sum(tok, pos));
    assert(m.value(x[i]) == m.value(tok) + m.value(pos));
}

/// Each half of a block adds to its input what dropout leaves of a branch: of the projected
/// output of attention, and of the projected output of the feed-forward layer.
pub proof fn law_block_adds_two_branches<T: Scalar>(
    m: Exact<T>,
    params: Seq<Term<T>>,
    cfg: GptConfig,
    training: bool,
    bo: BlockR,
    src: Seq<Term<T>>,
    k: BlockTerms<T>,
    dst: Seq<Term<T>>,
    d: Dims,
    s: rng::State,
    i: int,
)
    requires
        m.ok(),
        (m.bits)(cfg.dropout) != 1real,
        block::block_done(params, bo, src, k, dst, d, forward::block_drop(cfg, training), s),
        0 <= i < d.b * d.t * d.c,
        d.c >= 1,
    ensures
        ({
            let rows = d.b * d.t;
            let c = d.c as int;
            let p = (m.bits)(cfg.dropout);
            let on = forward::drops(cfg, training);
            let attended = block::linear(
                k.attn_out,
                block::region(params, bo.proj_w),
                block::opt_region(params, bo.proj_b),
                rows,
                c,
                c,
            );
            let fed = block::linear(
                k.gelu_out,
                block::region(params, bo.mlp_w),
                block::opt_region(params, bo.mlp_b),
                rows,
                4 * c,
                c,
            );
            &&& leaves(
                on,
                k.resid_mask,
                i,
                p,
                m.value(attended[i]),
                m.value(k.x2[i]) - m.value(src[i]),
            )
            &&& leaves(
                on,
                k.mlp_mask,
                i,
                p,
                m.value(fed[i]),
                m.value(dst[i]) - m.value(k.x2[i]),
            )
        }),
{
    let rows = d.b * d.t;
    let c = d.c as int;
    let mc = (rows * c) as nat;
    let p = (m.bits)(cfg.dropout);
    let drop = forward::block_drop::<T>(cfg, training);
    law_scale_makes_up_for_dropout(m, cfg, training);
    let s2 = block::after_drop(s, (d.b * d.nh * d.t * d.t) as nat, drop);
    let s3 = block::after_drop(s2, mc, drop);
    let attended = block::linear(
        k.attn_out,
        block::region(params, bo.proj_w),
        block::opt_region(params, bo.proj_b),
        rows,
        c,
        c,
    );
    let fed = block::linear(
        k.gelu_out,
        block::region(params, bo.mlp_w),
        block::opt_region(params, bo.mlp_b),
        rows,
        4 * c,
        c,
    );
    assert(attended.len() == mc);
    assert(fed.len() == mc);
    lemma_left(m, attended, k.resid_mask, mc, drop, s2, p, i);
    lemma_left(m, fed, k.mlp_mask, mc, drop, s3, p, i);
    let a = block::dropped(attended, k.resid_mask, drop);
    assert(a.len() == mc);
    assert(k.x2[i] == scalar::sum(a[i], src[i]));
    assert(m.value(k.x2[i]) == m.value(a[i]) + m.value(src[i]));
    assert(dst[i] == scalar::sum(k.x2[i], k.mlp_out[i]));
    assert(m.value(dst[i]) == m.value(k.x2[i]) + m.value(k.mlp_out[i]));
}

/// Dropout of attention weights: the output of attention times `1 - p` is the sum of the
/// values of the positions up to the one that attends, each times its weight, over those
/// alone whose weight the mask keeps.
pub proof fn law_attention_behind_dropout<T: Scalar>(
    m: Exact<T>,
    params: Seq<Term<T>>,
    cfg: GptConfig,
    training: bool,
    bo: BlockR,
    src: Seq<Term<T>>,
    k: BlockTerms<T>,
    dst: Seq<Term<T>>,
    d: Dims,
    s: rng::State,
    bb: int,
    i: int,
    h: int,
    e: int,
)
    requires
        m.ok(),
        d.ok(),
        (m.bits)(cfg.dropout) != 1real,
        forward::drops(cfg, training),
        block::block_done(params, bo, src, k, dst, d, forward::block_drop(cfg, training), s),
        0 <= bb < d.b,
        0 <= i < d.t,
        0 <= h < d.nh,
        0 <= e < d.hs,
    ensures
        exact::times(
            m.value(k.attn_out[d.out(bb, i, h) + e]),
            1real - (m.bits)(cfg.dropout),
        ) == exact::sum(
            i + 1,
            |j: int|
                if k.att_mask[d.weight_row(bb, i, h) + j] == 1 {
                    exact::times(
                        m.value(k.att[d.weight_row(bb, i, h) + j]),
                        m.value(k.qkv[d.at(bb, j, 2, h) + e]),
                    )
                } else {
                    0real
                },
        ),
{
    let p = (m.bits)(cfg.dropout);
    let drop = forward::block_drop::<T>(cfg, training);
    let base = d.weight_row(bb, i, h);
    let scale = m.value(drop.scale);
    law_scale_makes_up_for_dropout(m, cfg, training);
    meaning::law_attention_output(m, k.att, k.att_mask, drop.scale, k.qkv, d, bb, i, h, e);
    attention::lemma_weight_row(d, bb, i, h);
    let n = (d.b * d.nh * d.t * d.t) as nat;
    assert(k.att_mask.len() == n);
    let f = |j: int|
        exact::times(
            if k.att_mask.len() == 0 {
                m.value(k.att[base + j])
            } else {
                exact::times(
                    m.value(k.att[base + j]),
                    exact::times(k.att_mask[base + j] as real, m.value(drop.scale)),
                )
            },
            m.value(k.qkv[d.at(bb, j, 2, h) + e]),
        );
    let g = |j: int|
        if k.att_mask[base + j] == 1 {
            exact::times(m.value(k.att[base + j]), m.value(k.qkv[d.at(bb, j, 2, h) + e]))
        } else {
            0real
        };
    let q = 1real - p;
    assert forall|j: int| 0 <= j < i + 1 implies #[trigger] f(j) == exact::times(scale, g(j)) by {
        let mk = k.att_mask[base + j];
        assert(mk == 0 || mk == 1);
        let w = m.value(k.att[base + j]);
        let v = m.value(k.qkv[d.at(bb, j, 2, h) + e]);
        exact::lemma_units(scale);
        exact::lemma_units(w);
        exact::lemma_units(v);
        if mk == 1 {
            exact::lemma_commutes(w, scale);
            exact::lemma_associates(scale, w, v);
        }
    }
    exact::lemma_scaled(i + 1, scale, g, f);
    exact::lemma_swaps(scale, exact::sum(i + 1, g), q);
    exact::lemma_units(exact::sum(i + 1, g));
}

/// How many numbers a pass with dropout has drawn when it comes to block `l`.
pub open spec fn drawn_before(d: Dims, l: nat) -> nat {
    (d.b * d.t * d.c + l * (d.b * d.nh * d.t * d.t + 2 * (d.b * d.t * d.c))) as nat
}

/// With dropout, no two places of a pass share a draw: the embeddings take the first of them,
/// then the blocks theirs in turn, one for each weight of attention and one for each number of
/// the two branches.
pub proof fn law_masks_are_drawn_in_turn<T>(s: rng::State, d: Dims, drop: DropTerms<T>, l: nat)
    requires
        drop.on,
    ensures
        forward::state_at(s, d, drop, l) == rng::advance_by(s, drawn_before(d, l)),
    decreases l,
{
    let mc = d.b * d.t * d.c;
    let w = d.b * d.nh * d.t * d.t;
    assert(mc >= 0 && w >= 0) by {
        lemma_not_negative(d);
    }
    let per = w + 2 * mc;
    if l == 0 {
        assert(0 * per == 0);
    } else {
        let p = (l - 1) as nat;
        law_masks_are_drawn_in_turn(s, d, drop, p);
        assert(l * per == p * per + per) by (nonlinear_arith)
            requires
                l == p + 1,
        ;
        assert(p * per >= 0) by (nonlinear_arith)
            requires
                p >= 0,
                per >= 0,
        ;
        let at = drawn_before(d, p);
        rng::law_draws_add_up(s, at, w as nat);
        rng::law_draws_add_up(s, at + w as nat, mc as nat);
        rng::law_draws_add_up(s, at + w as nat + mc as nat, mc as nat);
        assert(at + w as nat + mc as nat + mc as nat == drawn_before(d, l));
    }
}

proof fn lemma_not_negative(d: Dims)
    ensures
        d.b * d.t * d.c >= 0,
        d.b * d.nh * d.t * d.t >= 0,
{
    let (b, t, c, nh) = (d.b as int, d.t as int, d.c as int, d.nh as int);
    assert(b * t * c >= 0 && b * nh * t * t >= 0) by (nonlinear_arith)
        requires
            b >= 0,
            t >= 0,
            c >= 0,
            nh >= 0,
    ;
}

/// A number is kept exactly where the draw for its place is not below the dropout rate, where
/// comparing comes out as in exact arithmetic.
pub proof fn law_large_draws_are_kept<T: Scalar>(
    m: Exact<T>,
    mask: Seq<u8>,
    p: Term<T>,
    s: rng::State,
    i: int,
)
    requires
        layers::is_mask(mask, p, s),
        0 <= i < mask.len(),
        exact::at_least_is_exact(
            m,
            Term::Bits(rng::uniform_single(rng::advance_by(s, i as nat))),
            p,
        ),
    ensures
        mask[i] == 0 || mask[i] == 1,
        mask[i] == 1 <==> (m.bits)(rng::uniform_single(rng::advance_by(s, i as nat))) >= m.value(p),
{
    let u: Term<T> = Term::Bits(rng::uniform_single(rng::advance_by(s, i as nat)));
    assert(m.value(u) == (m.bits)(rng::uniform_single(rng::advance_by(s, i as nat))));
    assert(mask[i] == 0 || mask[i] == 1);
}

/// Block `l` of a pass adds to `src` what dropout leaves of its branches, at place `i`.
pub open spec fn adds_branches<T>(
    m: Exact<T>,
    params: Seq<Term<T>>,
    cfg: GptConfig,
    training: bool,
    rows: int,
    l: int,
    b: BlockTerms<T>,
    src: real,
    dst: real,
    i: int,
) -> bool {
    let c = cfg.n_embd as int;
    let bo = layout::block_r(layout::block_off(cfg, l as nat), c as nat, cfg.bias);
    let p = (m.bits)(cfg.dropout);
    let on = forward::drops(cfg, training);
    let attended = block::linear(
        b.attn_out,
        block::region(params, bo.proj_w),
        block::opt_region(params, bo.proj_b),
        rows,
        c,
        c,
    );
    let fed = block::linear(
        b.gelu_out,
        block::region(params, bo.mlp_w),
        block::opt_region(params, bo.mlp_b),
        rows,
        4 * c,
        c,
    );
    &&& leaves(on, b.resid_mask, i, p, m.value(attended[i]), m.value(b.x2[i]) - src)
    &&& leaves(on, b.mlp_mask, i, p, m.value(fed[i]), dst - m.value(b.x2[i]))
}

/// The whole pass: for every block, what it adds to its input is what dropout at the rate of
/// the model leaves of its branches. The first block starts from the embeddings, each other
/// block from the output of the one before, and the last normalisation reads the last output.
pub proof fn law_pass_adds_branches<T: Scalar>(
    m: Exact<T>,
    params: Seq<Term<T>>,
    cfg: GptConfig,
    tokens: Seq<u32>,
    training: bool,
    s: rng::State,
    k: Cache<T>,
    l: int,
    i: int,
)
    requires
        m.ok(),
        (m.bits)(cfg.dropout) != 1real,
        forward::activations_done(params, cfg, tokens, training, s, k),
        0 <= l < cfg.n_layer,
        0 <= i < tokens.len() * cfg.n_embd,
    ensures
        k.blocks@[l]@.x_in[i] == if l == 0 {
            k.emb@[i]@
        } else {
            scalar::sum(k.blocks@[l - 1]@.x2[i], k.blocks@[l - 1]@.mlp_out[i])
        },
        adds_branches(
            m,
            params,
            cfg,
            training,
            tokens.len() as int,
            l,
            k.blocks@[l]@,
            m.value(k.blocks@[l]@.x_in[i]),
            m.value(k.blocks@[l]@.x2[i]) + m.value(k.blocks@[l]@.mlp_out[i]),
            i,
        ),
        l + 1 == cfg.n_layer ==> k.lnf_x@[i]@ == scalar::sum(
            k.blocks@[l]@.x2[i],
            k.blocks@[l]@.mlp_out[i],
        ),
{
    lemma_block_of_pass(params, cfg, tokens, training, s, k, l, i);
    let d = cache::dims_of(cfg, tokens.len());
    let at = forward::state_at(s, d, forward::block_drop::<T>(cfg, training), l as nat);
    lemma_adds_branches(
        m,
        params,
        cfg,
        training,
        d,
        l,
        forward::activation(k, l),
        k.blocks@[l]@,
        forward::activation(k, l + 1),
        at,
        i,
    );
}

proof fn lemma_adds_branches<T: Scalar>(
    m: Exact<T>,
    params: Seq<Term<T>>,
    cfg: GptConfig,
    training: bool,
    d: Dims,
    l: int,
    src: Seq<Term<T>>,
    b: BlockTerms<T>,
    dst: Seq<Term<T>>,
    s: rng::State,
    i: int,
)
    requires
        m.ok(),
        (m.bits)(cfg.dropout) != 1real,
        d.c == cfg.n_embd,
        0 <= i < d.b * d.t * d.c,
        block::block_done(
            params,
            layout::block_r(layout::block_off(cfg, l as nat), cfg.n_embd as nat, cfg.bias),
            src,
            b,
            dst,
            d,
            forward::block_drop(cfg, training),
            s,
        ),
        dst[i] == scalar::sum(b.x2[i], b.mlp_out[i]),
    ensures
        adds_branches(
            m,
            params,
            cfg,
            training,
            d.b * d.t,
            l,
            b,
            m.value(src[i]),
            m.value(b.x2[i]) + m.value(b.mlp_out[i]),
            i,
        ),
{
    let bo = layout::block_r(layout::block_off(cfg, l as nat), cfg.n_embd as nat, cfg.bias);
    let (n, c) = (d.b * d.t, d.c as int);
    assert(c >= 1) by (nonlinear_arith)
        requires
            0 <= i < n * c,
            c >= 0,
    ;
    law_block_adds_two_branches(m, params, cfg, training, bo, src, b, dst, d, s, i);
    assert(m.value(dst[i]) == m.value(b.x2[i]) + m.value(b.mlp_out[i]));
}

/// A block of a pass: what goes into it and out of it.
proof fn lemma_block_of_pass<T: Scalar>(
    params: Seq<Term<T>>,
    cfg: GptConfig,
    tokens: Seq<u32>,
    training: bool,
    s: rng::State,
    k: Cache<T>,
    l: int,
    i: int,
)
    requires
        forward::activations_done(params, cfg, tokens, training, s, k),
        0 <= l < cfg.n_layer,
        0 <= i < tokens.len() * cfg.n_embd,
    ensures
        ({
            let d = cache::dims_of(cfg, tokens.len());
            let c = cfg.n_embd as nat;
            let b = k.blocks@[l]@;
            let drop = forward::block_drop::<T>(cfg, training);
            let dst = forward::activation(k, l + 1);
            &&& d.b * d.t == tokens.len()
            &&& block::block_done(
                params,
                layout::block_r(layout::block_off(cfg, l as nat), c, cfg.bias),
                forward::activation(k, l),
                b,
                dst,
                d,
                drop,
                forward::state_at(s, d, drop, l as nat),
            )
            &&& b.x_in == forward::activation(k, l)
            &&& forward::activation(k, l)[i] == if l == 0 {
                k.emb@[i]@
            } else {
                scalar::sum(k.blocks@[l - 1]@.x2[i], k.blocks@[l - 1]@.mlp_out[i])
            }
            &&& dst[i] == scalar::sum(b.x2[i], b.mlp_out[i])
            &&& l + 1 == cfg.n_layer ==> k.lnf_x@[i]@ == dst[i]
        }),
{
    let d = cache::dims_of(cfg, tokens.len());
    let b = k.blocks@[l]@;
    assert(k.tokens@.len() == d.b * d.t);
    assert(k.blocks@[l].sized(d));
    assert(b.x2.len() == tokens.len() * cfg.n_embd);
    if l > 0 {
        assert(k.blocks@[l - 1].sized(d));
        assert(k.blocks@[l - 1]@.x2.len() == tokens.len() * cfg.n_embd);
    }
    if l + 1 == cfg.n_layer {
        assert(scalar::terms(k.lnf_x@)[i] == k.lnf_x@[i]@);
    }
}

/// The place is kept exactly where draw number `n` from `s` on is not below the rate `p`.
pub open spec fn decided_by<T>(m: Exact<T>, mask: u8, s: rng::State, n: int, p: real) -> bool {
    &&& mask == 0 || mask == 1
    &&& mask == 1 <==> (m.bits)(rng::uniform_single(rng::advance_by(s, n as nat))) >= p
}

/// Comparing uniform numbers from `s` on with the rate comes out as in exact arithmetic.
pub open spec fn compares_exactly<T: Scalar>(m: Exact<T>, s: rng::State, p: Term<T>) -> bool {
    forall|n: nat|
        exact::at_least_is_exact(
            m,
            Term::<T>::Bits(#[trigger] rng::uniform_single(rng::advance_by(s, n))),
            p,
        )
}

proof fn lemma_mask_decided<T: Scalar>(
    m: Exact<T>,
    mask: Seq<u8>,
    len: nat,
    drop: DropTerms<T>,
    s: rng::State,
    from: nat,
    i: int,
)
    requires
        drop.on,
        block::mask_for(mask, len, drop, rng::advance_by(s, from)),
        compares_exactly(m, s, drop.p),
        0 <= i < len,
    ensures
        decided_by(m, mask[i], s, from + i, m.value(drop.p)),
{
    rng::law_draws_add_up(s, from, i as nat);
    let u: Term<T> = Term::Bits(rng::uniform_single(rng::advance_by(s, (from + i) as nat)));
    assert(exact::at_least_is_exact(m, u, drop.p));
    law_large_draws_are_kept(m, mask, drop.p, rng::advance_by(s, from), i);
}

/// Every mask of a pass in training with dropout: each place is kept where its own draw is not
/// below the rate. The draws go to the embeddings, then to each block for its attention
/// weights, for its first branch and for its second.
pub proof fn law_draws_decide_masks<T: Scalar>(
    m: Exact<T>,
    params: Seq<Term<T>>,
    cfg: GptConfig,
    tokens: Seq<u32>,
    training: bool,
    s: rng::State,
    k: Cache<T>,
    l: int,
    i: int,
)
    requires
        m.ok(),
        (m.bits)(cfg.dropout) != 1real,
        forward::drops(cfg, training),
        forward::activations_done(params, cfg, tokens, training, s, k),
        compares_exactly(m, s, forward::emb_drop::<T>(cfg, training).p),
        compares_exactly(m, s, forward::block_drop::<T>(cfg, training).p),
        0 <= l < cfg.n_layer,
        0 <= i,
    ensures
        ({
            let d = cache::dims_of(cfg, tokens.len());
            let p = (m.bits)(cfg.dropout);
            let b = k.blocks@[l]@;
            let n = drawn_before(d, l as nat);
            let w = d.b * d.nh * d.t * d.t;
            let mc = d.b * d.t * d.c;
            &&& i < mc ==> decided_by(m, k.emb_mask@[i], s, i, p)
            &&& i < w ==> decided_by(m, b.att_mask[i], s, n + i, p)
            &&& i < mc ==> decided_by(m, b.resid_mask[i], s, n + w + i, p)
            &&& i < mc ==> decided_by(m, b.mlp_mask[i], s, n + w + mc + i, p)
        }),
{
    let d = cache::dims_of(cfg, tokens.len());
    let emb = forward::emb_drop::<T>(cfg, training);
    let drop = forward::block_drop::<T>(cfg, training);
    law_scale_makes_up_for_dropout(m, cfg, training);
    law_masks_are_drawn_in_turn(s, d, drop, l as nat);
    lemma_not_negative(d);
    let n = drawn_before(d, l as nat);
    let w = (d.b * d.nh * d.t * d.t) as nat;
    let mc = (d.b * d.t * d.c) as nat;
    rng::law_draws_add_up(s, n, w);
    rng::law_draws_add_up(s, n + w, mc);
    lemma_masks_of_block(params, cfg, tokens, training, s, k, l);
    if i < mc {
        lemma_mask_decided(m, k.emb_mask@, mc, emb, s, 0, i);
        lemma_mask_decided(m, k.blocks@[l]@.resid_mask, mc, drop, s, n + w, i);
        lemma_mask_decided(m, k.blocks@[l]@.mlp_mask, mc, drop, s, n + w + mc, i);
    }
    if i < w {
        lemma_mask_decided(m, k.blocks@[l]@.att_mask, w, drop, s, n, i);
    }
}

proof fn lemma_masks_of_block<T: Scalar>(
    params: Seq<Term<T>>,
    cfg: GptConfig,
    tokens: Seq<u32>,
    training: bool,
    s: rng::State,
    k: Cache<T>,
    l: int,
)
    requires
        forward::activations_done(params, cfg, tokens, training, s, k),
        forward::drops(cfg, training),
        0 <= l < cfg.n_layer,
    ensures
        ({
            let d = cache::dims_of(cfg, tokens.len());
            let drop = forward::block_drop::<T>(cfg, training);
            let b = k.blocks@[l]@;
            let at = forward::state_at(s, d, drop, l as nat);
            let w = (d.b * d.nh * d.t * d.t) as nat;
            let mc = (d.b * d.t * d.c) as nat;
            &&& block::mask_for(k.emb_mask@, mc, forward::emb_drop::<T>(cfg, training), s)
            &&& block::mask_for(b.att_mask, w, drop, at)
            &&& block::mask_for(b.resid_mask, mc, drop, rng::advance_by(at, w))
            &&& block::mask_for(
                b.mlp_mask,
                mc,
                drop,
                rng::advance_by(rng::advance_by(at, w), mc),
            )
        }),
{
    let d = cache::dims_of(cfg, tokens.len());
    assert(k.tokens@.len() == d.b * d.t);
    assert(k.blocks@[l].sized(d));
}

/// A pass of a model without blocks: the last normalisation reads the embeddings.
pub proof fn law_pass_without_blocks<T: Scalar>(
    params: Seq<Term<T>>,
    cfg: GptConfig,
    tokens: Seq<u32>,
    training: bool,
    s: rng::State,
    k: Cache<T>,
)
    requires
        forward::activations_done(params, cfg, tokens, training, s, k),
        cfg.n_layer == 0,
    ensures
        scalar::terms(k.lnf_x@) == scalar::terms(k.emb@),
{
}

} // verus!
