//! The backward pass gives the gradient of the loss.
//!
//! The law is stated in exact arithmetic: whatever the rates at which the parameters change,
//! the loss changes at the rate that the gradients tell. What rounding does to the numbers is
//! not part of it.
use crate::adjoint;
use crate::attention;
use crate::attention::{Back, Dims};
use crate::attention_slopes;
use crate::backward;
use crate::backward::Rows;
use crate::block;
use crate::block::{DropTerms, Flow};
use crate::cache;
use crate::cache::{BlockTerms, Cache};
use crate::exact;
use crate::exact::Exact;
use crate::forward;
use crate::layers;
use crate::layout;
use crate::layout::{BlockR, GptConfig, LayerR};
use crate::loss_slopes;
use crate::model;
use crate::norm_slopes;
use crate::ops;
use crate::rng;
use crate::scalar;
use crate::scalar::{Scalar, Term};
use crate::slopes;
use vstd::prelude::*;

verus! {

/// The rate that a flow of gradients tells: that of the activations `x` and of the parameters.
pub open spec fn told_rate<T>(
    m: Exact<T>,
    f: Flow<T>,
    x: Seq<Term<T>>,
    params: Seq<Term<T>>,
    n: int,
) -> real {
    adjoint::pair(m, f.dx, x, n) + adjoint::pair(m, f.grads, params, params.len() as int)
}

/// Through the feed-forward half of a block.
proof fn lemma_feed_forward<T: Scalar>(
    m: Exact<T>,
    params: Seq<Term<T>>,
    bo: BlockR,
    src: Seq<Term<T>>,
    k: BlockTerms<T>,
    dst: Seq<Term<T>>,
    d: Dims,
    drop: DropTerms<T>,
    s: rng::State,
    f: Flow<T>,
)
    requires
        m.ok(),
        cache::fits(d),
        d.c >= 1,
        m.rate(drop.scale) == 0real,
        block::block_done(params, bo, src, k, dst, d, drop, s),
        block::block_fits(bo, d.c as int, params.len() as int),
        src.len() == d.b * d.t * d.c,
        f.dx.len() == d.b * d.t * d.c,
        f.grads.len() == params.len(),
    ensures
        ({
            let n = d.b * d.t * d.c;
            let g = block::back_feed_forward(params, bo, k, f, d, drop.scale);
            &&& g.dx.len() == n
            &&& g.grads.len() == params.len()
            &&& told_rate(m, f, dst, params, n) == told_rate(m, g, k.x2, params, n)
        }),
{
    let rows = d.b * d.t;
    let c = d.c as int;
    let n = rows * c;
    cache::lemma_fits(d);
    assert(k.x2.len() == n);
    slopes::lemma_added_numbers(m, f.dx, k.x2, k.mlp_out, n);
    let last = block::linear(
        k.gelu_out,
        block::region(params, bo.mlp_w),
        block::opt_region(params, bo.mlp_b),
        rows,
        4 * c,
        c,
    );
    let s2 = block::after_drop(s, (d.b * d.nh * d.t * d.t) as nat, drop);
    lemma_mask(k.mlp_mask, n as nat, drop, block::after_drop(s2, n as nat, drop));
    slopes::lemma_dropped(m, f.dx, last, k.mlp_mask, drop, n);
    let dout = block::undropped(f.dx, k.mlp_mask, drop.scale);
    adjoint::lemma_linear(
        m,
        params,
        f.grads,
        bo.mlp_w,
        bo.mlp_b,
        k.gelu_out,
        dout,
        rows,
        4 * c,
        c,
    );
    let g1 = block::linear_grads(f.grads, bo.mlp_w, bo.mlp_b, k.gelu_out, dout, rows, 4 * c, c);
    let dg = block::back_linear(dout, block::region(params, bo.mlp_w), rows, c, 4 * c);
    slopes::lemma_gelus(m, dg, k.fc_out, rows * (4 * c));
    let df = layers::sloped(dg, k.fc_out);
    adjoint::lemma_linear(m, params, g1, bo.fc_w, bo.fc_b, k.ln2_out, df, rows, c, 4 * c);
    let g2 = block::linear_grads(g1, bo.fc_w, bo.fc_b, k.ln2_out, df, rows, c, 4 * c);
    let dh = block::back_linear(df, block::region(params, bo.fc_w), rows, 4 * c, c);
    norm_slopes::lemma_norm(m, params, Flow { dx: dh, grads: g2 }, k.x2, bo.ln2, rows, c);
    let b = block::back_norm(
        Flow { dx: dh, grads: g2 },
        norm_slopes::kept(k.x2, block::region(params, bo.ln2.g), rows, c),
        bo.ln2,
        rows,
        c,
    );
    slopes::lemma_added_gradients(m, b.dx, f.dx, k.x2, n);
}

/// The mask of a dropout holds zeros and ones.
proof fn lemma_mask<T: Scalar>(mask: Seq<u8>, n: nat, drop: DropTerms<T>, s: rng::State)
    requires
        block::mask_for(mask, n, drop, s),
    ensures
        if drop.on {
            &&& mask.len() == n
            &&& forall|i: int| 0 <= i < n ==> #[trigger] mask[i] == 0 || mask[i] == 1
        } else {
            mask.len() == 0
        },
{
}

/// Through the attention half of a block.
proof fn lemma_attention_half<T: Scalar>(
    m: Exact<T>,
    params: Seq<Term<T>>,
    bo: BlockR,
    src: Seq<Term<T>>,
    k: BlockTerms<T>,
    dst: Seq<Term<T>>,
    d: Dims,
    drop: DropTerms<T>,
    s: rng::State,
    f: Flow<T>,
)
    requires
        m.ok(),
        cache::fits(d),
        d.c >= 1,
        m.rate(drop.scale) == 0real,
        block::block_done(params, bo, src, k, dst, d, drop, s),
        block::block_fits(bo, d.c as int, params.len() as int),
        src.len() == d.b * d.t * d.c,
        f.dx.len() == d.b * d.t * d.c,
        f.grads.len() == params.len(),
    ensures
        ({
            let n = d.b * d.t * d.c;
            let g = block::back_attention(params, bo, k, f, d, drop.scale);
            &&& g.dx.len() == n
            &&& g.grads.len() == params.len()
            &&& told_rate(m, f, k.x2, params, n) == told_rate(m, g, src, params, n)
        }),
{
    let rows = d.b * d.t;
    let c = d.c as int;
    let n = rows * c;
    cache::lemma_fits(d);
    let y = block::linear(
        k.attn_out,
        block::region(params, bo.proj_w),
        block::opt_region(params, bo.proj_b),
        rows,
        c,
        c,
    );
    let held = block::dropped(y, k.resid_mask, drop);
    assert(held.len() == n);
    slopes::lemma_added_numbers(m, f.dx, held, src, n);
    let s2 = block::after_drop(s, (d.b * d.nh * d.t * d.t) as nat, drop);
    lemma_mask(k.resid_mask, n as nat, drop, s2);
    slopes::lemma_dropped(m, f.dx, y, k.resid_mask, drop, n);
    let dout = block::undropped(f.dx, k.resid_mask, drop.scale);
    adjoint::lemma_linear(
        m,
        params,
        f.grads,
        bo.proj_w,
        bo.proj_b,
        k.attn_out,
        dout,
        rows,
        c,
        c,
    );
    let g1 = block::linear_grads(f.grads, bo.proj_w, bo.proj_b, k.attn_out, dout, rows, c, c);
    let dy = block::back_linear(dout, block::region(params, bo.proj_w), rows, c, c);
    let back = Back { dy, qkv: k.qkv, att: k.att, mask: k.att_mask, scale: drop.scale };
    attention_slopes::lemma_attention(m, back, d);
    let dqkv = attention::qkv_grads(layout::zeros((rows * (3 * c)) as nat), back, d);
    adjoint::lemma_linear(m, params, g1, bo.attn_w, bo.attn_b, k.ln1_out, dqkv, rows, c, 3 * c);
    let g2 = block::linear_grads(g1, bo.attn_w, bo.attn_b, k.ln1_out, dqkv, rows, c, 3 * c);
    let dh = block::back_linear(dqkv, block::region(params, bo.attn_w), rows, 3 * c, c);
    norm_slopes::lemma_norm(m, params, Flow { dx: dh, grads: g2 }, src, bo.ln1, rows, c);
    let b = block::back_norm(
        Flow { dx: dh, grads: g2 },
        norm_slopes::kept(src, block::region(params, bo.ln1.g), rows, c),
        bo.ln1,
        rows,
        c,
    );
    slopes::lemma_added_gradients(m, b.dx, f.dx, src, n);
}

/// What goes into block `l` has a number for each place.
proof fn lemma_activation_len<T: Scalar>(
    params: Seq<Term<T>>,
    cfg: GptConfig,
    tokens: Seq<u32>,
    training: bool,
    s: rng::State,
    k: Cache<T>,
    l: int,
)
    requires
        forward::activations_done(params, cfg, tokens, training, s, k),
        0 <= l <= cfg.n_layer,
    ensures
        ({
            let d = cache::dims_of(cfg, tokens.len());
            forward::activation(k, l).len() == d.b * d.t * d.c
        }),
{
    if l > 0 {
        assert(k.blocks@[l - 1].sized(cache::dims_of(cfg, tokens.len())));
    }
}

/// Through the first `n` blocks.
proof fn lemma_blocks<T: Scalar>(
    m: Exact<T>,
    params: Seq<Term<T>>,
    cfg: GptConfig,
    tokens: Seq<u32>,
    training: bool,
    s: rng::State,
    k: Cache<T>,
    f: Flow<T>,
    n: nat,
)
    requires
        m.ok(),
        model::buildable(cfg),
        cfg.n_embd >= 1,
        cache::fits(cache::dims_of(cfg, tokens.len())),
        forward::activations_done(params, cfg, tokens, training, s, k),
        m.rate(forward::drop_scale::<T>(cfg, training)) == 0real,
        n <= cfg.n_layer,
        params.len() == layout::total_len(cfg),
        f.dx.len() == cache::dims_of(cfg, tokens.len()).b * cache::dims_of(cfg, tokens.len()).t
            * cfg.n_embd,
        f.grads.len() == params.len(),
    ensures
        ({
            let d = cache::dims_of(cfg, tokens.len());
            let size = d.b * d.t * d.c;
            let g = backward::back_blocks(
                params,
                cfg,
                backward::kept_blocks(k),
                f,
                d,
                forward::drop_scale(cfg, training),
                n,
            );
            &&& g.dx.len() == size
            &&& g.grads.len() == params.len()
            &&& told_rate(m, f, forward::activation(k, n as int), params, size) == told_rate(
                m,
                g,
                forward::activation(k, 0),
                params,
                size,
            )
        }),
    decreases n,
{
    if n > 0 {
        let d = cache::dims_of(cfg, tokens.len());
        let l = (n - 1) as nat;
        let bo = layout::block_r(layout::block_off(cfg, l), cfg.n_embd as nat, cfg.bias);
        let drop = forward::block_drop::<T>(cfg, training);
        let at = forward::state_at(s, d, drop, l);
        let src = forward::activation(k, l as int);
        let dst = forward::activation(k, n as int);
        let kb = k.blocks@[l as int]@;
        assert(backward::kept_blocks(k)[l as int] == kb);
        model::lemma_block_fits(cfg, l);
        lemma_activation_len(params, cfg, tokens, training, s, k, l as int);
        lemma_feed_forward(m, params, bo, src, kb, dst, d, drop, at, f);
        let g1 = block::back_feed_forward(params, bo, kb, f, d, drop.scale);
        lemma_attention_half(m, params, bo, src, kb, dst, d, drop, at, g1);
        let g2 = block::back_attention(params, bo, kb, g1, d, drop.scale);
        lemma_blocks(m, params, cfg, tokens, training, s, k, g2, l);
    }
}

/// Numbers that are gathered by key: the rates that they collect.
proof fn lemma_gathered(
    rows: int,
    v: int,
    c: int,
    u: spec_fn(int, int) -> real,
    key: spec_fn(int) -> int,
    r: spec_fn(int) -> real,
)
    requires
        0 <= rows,
        0 <= v,
        0 <= c,
        forall|i: int| 0 <= i < rows ==> 0 <= #[trigger] key(i) < v,
    ensures
        exact::sum(
            v * c,
            |x: int|
                exact::times(
                    exact::sum(
                        rows,
                        |i: int|
                            if key(i) == x / c {
                                u(i, x % c)
                            } else {
                                0real
                            },
                    ),
                    r(x),
                ),
        ) == exact::sum2(rows, c, |i: int, e: int| exact::times(u(i, e), r(key(i) * c + e))),
{
    let flat = |x: int|
        exact::times(
            exact::sum(
                rows,
                |i: int|
                    if key(i) == x / c {
                        u(i, x % c)
                    } else {
                        0real
                    },
            ),
            r(x),
        );
    let t3 = |w: int, e: int, i: int|
        if key(i) == w {
            exact::times(u(i, e), r(w * c + e))
        } else {
            0real
        };
    let cells = |w: int, e: int| exact::sum(rows, |i: int| t3(w, e, i));
    assert forall|w: int, e: int| 0 <= w < v && 0 <= e < c implies #[trigger] cells(w, e) == flat(
        w * c + e,
    ) by {
        let x = w * c + e;
        ops::lemma_cell(w, c, e);
        let a = |i: int|
            if key(i) == x / c {
                u(i, x % c)
            } else {
                0real
            };
        let b = |i: int| t3(w, e, i);
        assert forall|i: int| 0 <= i < rows implies #[trigger] b(i) == exact::times(
            r(x),
            a(i),
        ) by {
            exact::lemma_commutes(r(x), a(i));
            exact::lemma_units(r(x));
        }
        exact::lemma_scaled(rows, r(x), a, b);
        exact::lemma_commutes(r(x), exact::sum(rows, a));
    }
    exact::lemma_by_rows(v, c, flat, cells);
    let turned = |e: int, w: int| cells(w, e);
    exact::lemma_swapped(v, c, cells, turned);
    let want = |i: int, e: int| exact::times(u(i, e), r(key(i) * c + e));
    let back = |e: int, i: int| want(i, e);
    exact::lemma_swapped(rows, c, want, back);
    let p = |e: int| exact::sum(v, |w: int| turned(e, w));
    let q = |e: int| exact::sum(rows, |i: int| back(e, i));
    assert forall|e: int| 0 <= e < c implies #[trigger] p(e) == q(e) by {
        let f = |w: int, i: int| t3(w, e, i);
        let g = |i: int, w: int| t3(w, e, i);
        exact::lemma_swapped(v, rows, f, g);
        let a = |w: int| turned(e, w);
        let b = |w: int| exact::sum(rows, |i: int| f(w, i));
        assert forall|w: int| 0 <= w < v implies #[trigger] a(w) == b(w) by {
            exact::lemma_same(rows, |i: int| t3(w, e, i), |i: int| f(w, i));
        }
        exact::lemma_same(v, a, b);
        let x = |i: int| exact::sum(v, |w: int| g(i, w));
        let y = |i: int| back(e, i);
        assert forall|i: int| 0 <= i < rows implies #[trigger] x(i) == y(i) by {
            assert(0 <= key(i) < v);
            exact::lemma_picked(v, key(i), |w: int| g(i, w));
        }
        exact::lemma_same(rows, x, y);
    }
    exact::lemma_same(c, p, q);
}

proof fn lemma_token_grad<T>(m: Exact<T>, g: Term<T>, k: Rows<T>, w: int, e: int, n: nat)
    ensures
        m.value(backward::token_grad(g, k, w, e, n)) == m.value(g) + exact::sum(
            n as int,
            |i: int|
                if k.tokens[i] == w {
                    m.value(
                        scalar::product(
                            k.dx[i * k.c + e],
                            backward::drop_factor(k.mask, k.scale, i * k.c + e),
                        ),
                    )
                } else {
                    0real
                },
        ),
    decreases n,
{
    if n > 0 {
        lemma_token_grad(m, g, k, w, e, (n - 1) as nat);
    }
}

proof fn lemma_position_grad<T>(m: Exact<T>, g: Term<T>, k: Rows<T>, p: int, e: int, n: nat)
    ensures
        m.value(backward::position_grad(g, k, p, e, n)) == m.value(g) + exact::sum(
            n as int,
            |i: int|
                if i % k.t == p {
                    m.value(
                        scalar::product(
                            k.dx[i * k.c + e],
                            backward::drop_factor(k.mask, k.scale, i * k.c + e),
                        ),
                    )
                } else {
                    0real
                },
        ),
    decreases n,
{
    if n > 0 {
        lemma_position_grad(m, g, k, p, e, (n - 1) as nat);
    }
}

/// Through the embeddings.
proof fn lemma_embeddings<T>(
    m: Exact<T>,
    params: Seq<Term<T>>,
    cfg: GptConfig,
    k: Rows<T>,
    grads: Seq<Term<T>>,
)
    requires
        0 <= k.c == cfg.n_embd,
        1 <= k.t <= cfg.block_size,
        k.dx.len() == k.tokens.len() * k.c,
        forall|i: int| 0 <= i < k.tokens.len() ==> #[trigger] k.tokens[i] < cfg.vocab_size,
        grads.len() == params.len(),
        cfg.vocab_size * cfg.n_embd + cfg.block_size * cfg.n_embd <= params.len(),
    ensures
        ({
            let n = params.len() as int;
            adjoint::pair(
                m,
                block::undropped(k.dx, k.mask, k.scale),
                forward::embedded(params, cfg, k.tokens, k.t),
                k.tokens.len() * k.c,
            ) + adjoint::pair(m, grads, params, n) == adjoint::pair(
                m,
                backward::embedding_grads(
                    grads,
                    k,
                    cfg.vocab_size * cfg.n_embd,
                    cfg.block_size * cfg.n_embd,
                ),
                params,
                n,
            )
        }),
{
    let n = params.len() as int;
    let rows = k.tokens.len() as int;
    let (c, v, bs) = (k.c, cfg.vocab_size as int, cfg.block_size as int);
    let (vc, tc) = (v * c, bs * c);
    let ub = block::undropped(k.dx, k.mask, k.scale);
    let emb = forward::embedded(params, cfg, k.tokens, k.t);
    let u = |i: int, e: int| m.value(ub[i * c + e]);
    assert(0 <= vc && 0 <= tc && 0 <= rows * c) by (nonlinear_arith)
        requires
            0 <= v,
            0 <= bs,
            0 <= rows,
            0 <= c,
            vc == v * c,
            tc == bs * c,
    ;
    // The embeddings.
    let word = |i: int| k.tokens[i] as int;
    let place = |i: int| i % k.t;
    let rw = |x: int| m.rate(params[x]);
    let rp = |x: int| m.rate(params[vc + x]);
    let flat = |x: int| exact::times(m.value(ub[x]), m.rate(emb[x]));
    let w2 = |i: int, e: int| exact::times(u(i, e), rw(word(i) * c + e));
    let p2 = |i: int, e: int| exact::times(u(i, e), rp(place(i) * c + e));
    let both = |i: int, e: int| w2(i, e) + p2(i, e);
    assert forall|i: int, e: int| 0 <= i < rows && 0 <= e < c implies #[trigger] both(i, e)
        == flat(i * c + e) by {
        ops::lemma_cell(i, c, e);
        ops::lemma_row_end(i, rows, c);
        let x = i * c + e;
        assert(emb[x] == scalar::sum(
            params[k.tokens[i] * c + e],
            params[vc + (i % k.t) * c + e],
        ));
        exact::lemma_distributes(
            u(i, e),
            rw(word(i) * c + e),
            m.rate(params[vc + (i % k.t) * c + e]),
        );
        assert(vc + (i % k.t) * c + e == vc + (place(i) * c + e));
    }
    exact::lemma_by_rows(rows, c, flat, both);
    exact::lemma_plus2(rows, c, w2, p2, both);
    // The tokens.
    let mid = Seq::new(
        grads.len(),
        |x: int|
            if x < vc {
                backward::token_grad(grads[x], k, x / c, x % c, k.tokens.len())
            } else {
                grads[x]
            },
    );
    let more = |x: int|
        exact::sum(
            rows,
            |i: int|
                if word(i) == x / c {
                    u(i, x % c)
                } else {
                    0real
                },
        );
    assert forall|x: int| 0 <= x < n implies m.value(#[trigger] mid[x]) == m.value(grads[x])
        + if 0 <= x < 0 + vc {
        more(x - 0)
    } else {
        0real
    } by {
        if x < vc {
            lemma_token_grad(m, grads[x], k, x / c, x % c, k.tokens.len());
            lemma_same_factors(m, k, x % c, x / c, vc, x, c, v);
            let a = |i: int|
                if k.tokens[i] == x / c {
                    m.value(
                        scalar::product(
                            k.dx[i * k.c + x % c],
                            backward::drop_factor(k.mask, k.scale, i * k.c + x % c),
                        ),
                    )
                } else {
                    0real
                };
            let b = |i: int|
                if word(i) == x / c {
                    u(i, x % c)
                } else {
                    0real
                };
            assert forall|i: int| 0 <= i < rows implies #[trigger] a(i) == b(i) by {
                ops::lemma_row_end(i, rows, c);
            }
            exact::lemma_same(rows, a, b);
        }
    }
    adjoint::lemma_added(m, grads, mid, params, n, 0, vc, more);
    assert forall|i: int| 0 <= i < rows implies 0 <= #[trigger] word(i) < v by {
        assert(k.tokens[i] < cfg.vocab_size);
    }
    lemma_gathered(rows, v, c, u, word, rw);
    exact::lemma_same(
        vc,
        |z: int| exact::times(more(z), m.rate(params[0 + z])),
        |x: int|
            exact::times(
                exact::sum(
                    rows,
                    |i: int|
                        if word(i) == x / c {
                            u(i, x % c)
                        } else {
                            0real
                        },
                ),
                rw(x),
            ),
    );
    // The positions.
    let g1 = backward::embedding_grads(grads, k, vc, tc);
    let extra = |x: int|
        exact::sum(
            rows,
            |i: int|
                if place(i) == x / c {
                    u(i, x % c)
                } else {
                    0real
                },
        );
    assert forall|x: int| 0 <= x < n implies m.value(#[trigger] g1[x]) == m.value(mid[x]) + if vc
        <= x < vc + tc {
        extra(x - vc)
    } else {
        0real
    } by {
        if vc <= x < vc + tc {
            let z = x - vc;
            lemma_position_grad(m, grads[x], k, z / c, z % c, k.tokens.len());
            lemma_same_factors(m, k, z % c, z / c, tc, z, c, bs);
            let a = |i: int|
                if i % k.t == z / c {
                    m.value(
                        scalar::product(
                            k.dx[i * k.c + z % c],
                            backward::drop_factor(k.mask, k.scale, i * k.c + z % c),
                        ),
                    )
                } else {
                    0real
                };
            let b = |i: int|
                if place(i) == z / c {
                    u(i, z % c)
                } else {
                    0real
                };
            assert forall|i: int| 0 <= i < rows implies #[trigger] a(i) == b(i) by {
                ops::lemma_row_end(i, rows, c);
            }
            exact::lemma_same(rows, a, b);
        }
    }
    adjoint::lemma_added(m, mid, g1, params, n, vc, tc, extra);
    assert forall|i: int| 0 <= i < rows implies 0 <= #[trigger] place(i) < bs by {
        vstd::arithmetic::div_mod::lemma_mod_bound(i, k.t);
    }
    lemma_gathered(rows, bs, c, u, place, rp);
    exact::lemma_same(
        tc,
        |z: int| exact::times(extra(z), m.rate(params[vc + z])),
        |x: int|
            exact::times(
                exact::sum(
                    rows,
                    |i: int|
                        if place(i) == x / c {
                            u(i, x % c)
                        } else {
                            0real
                        },
                ),
                rp(x),
            ),
    );
}

/// A place of a matrix with `v` rows and `c` columns has a column, and the gradient there goes
/// back through dropout as any other.
proof fn lemma_same_factors<T>(
    m: Exact<T>,
    k: Rows<T>,
    e: int,
    w: int,
    size: int,
    x: int,
    c: int,
    v: int,
)
    requires
        0 <= x < size,
        size == v * c,
        0 <= c == k.c,
        k.dx.len() == k.tokens.len() * c,
        e == x % c,
        w == x / c,
    ensures
        0 <= e < c,
        forall|i: int|
            0 <= i < k.tokens.len() ==> #[trigger] block::undropped(k.dx, k.mask, k.scale)[i * c
                + e] == scalar::product(
                k.dx[i * c + e],
                backward::drop_factor(k.mask, k.scale, i * c + e),
            ),
{
    attention::lemma_div_below(x, v, c);
    let ub = block::undropped(k.dx, k.mask, k.scale);
    assert forall|i: int| 0 <= i < k.tokens.len() implies #[trigger] ub[i * c + e]
        == scalar::product(
        k.dx[i * c + e],
        backward::drop_factor(k.mask, k.scale, i * c + e),
    ) by {
        ops::lemma_row_end(i, k.tokens.len() as int, c);
    }
}

/// The scale of the dropout does not change.
proof fn lemma_scale<T>(m: Exact<T>, cfg: GptConfig, training: bool)
    requires
        m.ok(),
        forward::drops(cfg, training) ==> (m.bits)(cfg.dropout) != 1real,
    ensures
        m.rate(forward::drop_scale::<T>(cfg, training)) == 0real,
{
    let one = scalar::one::<T>();
    let p = Term::<T>::Bits(cfg.dropout);
    let rest = scalar::difference(one, p);
    assert(m.value(one) == 1real && m.rate(one) == 0real);
    assert(m.value(p) == (m.bits)(cfg.dropout) && m.rate(p) == 0real);
    if forward::drops(cfg, training) {
        let y = m.value(rest);
        assert(y != 0real && m.rate(rest) == 0real);
        exact::lemma_units(y);
        exact::lemma_units(1real);
        exact::lemma_not_zero(y, y);
        let yy = exact::times(y, y);
        let q = m.rate(scalar::quotient(one, rest));
        assert(q == exact::over(exact::times(0real, y) - exact::times(1real, 0real), yy));
        exact::lemma_divides(0real, yy);
        exact::lemma_units(yy);
        exact::lemma_cancels(q, 0real, yy);
    }
}

/// The logits of a model without width do not change.
proof fn lemma_no_width<T>(
    m: Exact<T>,
    dl: Seq<Term<T>>,
    x: Seq<Term<T>>,
    w: Seq<Term<T>>,
    rows: int,
    v: int,
)
    requires
        m.ok(),
        0 <= rows,
        0 <= v,
    ensures
        adjoint::pair(
            m,
            dl,
            ops::nt(layout::zeros((rows * v) as nat), x, w, rows, 0, v),
            rows * v,
        ) == 0real,
{
    let y = ops::nt(layout::zeros((rows * v) as nat), x, w, rows, 0, v);
    let f = |z: int| exact::times(m.value(dl[z]), m.rate(y[z]));
    let zero = scalar::zero::<T>();
    assert(m.rate(zero) == 0real);
    assert forall|z: int| 0 <= z < rows * v implies #[trigger] f(z) == 0real by {
        assert(y[z] == scalar::sum(zero, zero));
        exact::lemma_units(m.value(dl[z]));
    }
    exact::lemma_none(rows * v, f);
}

/// The backward pass gives the gradient of the loss: at whatever rates the parameters change,
/// the loss changes at the rate that the gradients tell, the gradient of each parameter times
/// the rate at which that changes, added up. The pass adds its gradients to those that were
/// there. The law holds in training as well, for the masks that were drawn; it leaves out a
/// dropout that drops everything, and probabilities too small to be told from zero.
pub proof fn law_backward_is_gradient<T: Scalar>(
    m: Exact<T>,
    params: Seq<Term<T>>,
    cfg: GptConfig,
    tokens: Seq<u32>,
    targets: Seq<u32>,
    training: bool,
    s: rng::State,
    k: Cache<T>,
    loss: Term<T>,
    grads: Seq<Term<T>>,
)
    requires
        m.ok(),
        model::buildable(cfg),
        params.len() == layout::total_len(cfg),
        grads.len() == params.len(),
        forward::runnable(cfg, tokens),
        tokens.len() <= usize::MAX,
        forward::are_targets(cfg, tokens, targets),
        forward::forward_done(params, cfg, tokens, Some(targets), training, s, k, loss),
        loss_slopes::told(m, scalar::terms(k.probs@), targets, cfg.vocab_size as int),
        forward::drops(cfg, training) ==> (m.bits)(cfg.dropout) != 1real,
    ensures
        adjoint::pair(
            m,
            backward::backward_grads(params, cfg, k, targets, grads),
            params,
            params.len() as int,
        ) == adjoint::pair(m, grads, params, params.len() as int) + m.rate(loss),
{
    let n = params.len() as int;
    let d = cache::dims_of(cfg, tokens.len());
    let rows = tokens.len() as int;
    let c = cfg.n_embd as int;
    let v = cfg.vocab_size as int;
    forward::lemma_dims(cfg, tokens.len());
    model::lemma_ends_fit(cfg);
    assert(tokens[0] < cfg.vocab_size);
    let lnf_out = scalar::terms(k.lnf_out@);
    let logits = forward::logits_of(params, cfg, lnf_out, rows);
    let probs = forward::softmax_rows(logits, rows, v);
    let dl = backward::dlogits(probs, targets, rows, v);
    assert(0 <= rows * v && 0 <= v * c && 0 <= rows * c) by (nonlinear_arith)
        requires
            0 <= rows,
            0 <= v,
            0 <= c,
    ;
    assert forall|i: int| 0 <= i < rows implies #[trigger] targets[i] < v by {}
    loss_slopes::lemma_loss(m, logits, targets, rows, v);
    assert(m.rate(loss) == adjoint::pair(m, dl, logits, rows * v));
    if c == 0 {
        lemma_no_width(m, dl, lnf_out, params.subrange(0, v * c), rows, v);
        lemma_nothing(cfg);
    } else {
        lemma_scale(m, cfg, training);
        let wte = layout::r(0, (v * c) as nat);
        assert(block::region(params, wte) =~= params.subrange(0, v * c));
        loss_slopes::lemma_head(m, params, grads, wte, lnf_out, dl, rows, c, v);
        let end = layout::block_off(cfg, cfg.n_layer as nat);
        let ln = LayerR {
            g: layout::r(end, c as nat),
            b: layout::opt_r(cfg.bias, end + c as nat, c as nat),
        };
        let f0 = Flow {
            dx: ops::nn(
                layout::zeros((rows * c) as nat),
                dl,
                block::region(params, wte),
                rows,
                v,
                c,
            ),
            grads: block::weight_grads(grads, wte, dl, lnf_out, rows, v, c),
        };
        let lnf_x = scalar::terms(k.lnf_x@);
        norm_slopes::lemma_norm(m, params, f0, lnf_x, ln, rows, c);
        let f1 = backward::head_flow(params, cfg, k, targets, grads);
        assert(f1 == block::back_norm(
            f0,
            norm_slopes::kept(lnf_x, block::region(params, ln.g), rows, c),
            ln,
            rows,
            c,
        ));
        lemma_blocks(m, params, cfg, tokens, training, s, k, f1, cfg.n_layer as nat);
        let f2 = backward::back_blocks(
            params,
            cfg,
            backward::kept_blocks(k),
            f1,
            d,
            forward::drop_scale(cfg, training),
            cfg.n_layer as nat,
        );
        let drop = forward::emb_drop::<T>(cfg, training);
        let emb = forward::embedded(params, cfg, tokens, d.t as int);
        lemma_mask(k.emb_mask@, (rows * c) as nat, drop, s);
        slopes::lemma_dropped(m, f2.dx, emb, k.emb_mask@, drop, rows * c);
        let held = Rows {
            tokens,
            dx: f2.dx,
            mask: k.emb_mask@,
            scale: drop.scale,
            t: d.t as int,
            c,
        };
        lemma_embeddings(m, params, cfg, held, f2.grads);
    }
}

/// A model without width has no parameters.
proof fn lemma_nothing(cfg: GptConfig)
    requires
        cfg.n_embd == 0,
    ensures
        layout::total_len(cfg) == 0,
{
    let c = cfg.n_embd as nat;
    assert(cfg.vocab_size as nat * c == 0) by (nonlinear_arith)
        requires
            c == 0,
    ;
    assert(cfg.block_size as nat * c == 0) by (nonlinear_arith)
        requires
            c == 0,
    ;
    let bl = layout::block_len(c, cfg.bias);
    assert(c * c == 0) by (nonlinear_arith)
        requires
            c == 0,
    ;
    assert(bl == 0);
    assert(cfg.n_layer as nat * bl == 0) by (nonlinear_arith)
        requires
            bl == 0,
    ;
}

/// The gradient that a backward pass from zero leaves for a parameter is the rate at which the
/// loss changes when that parameter alone changes, at the rate one.
pub proof fn law_gradient_is_partial_derivative<T: Scalar>(
    m: Exact<T>,
    params: Seq<Term<T>>,
    cfg: GptConfig,
    tokens: Seq<u32>,
    targets: Seq<u32>,
    training: bool,
    s: rng::State,
    k: Cache<T>,
    loss: Term<T>,
    i: int,
)
    requires
        m.ok(),
        model::buildable(cfg),
        params.len() == layout::total_len(cfg),
        forward::runnable(cfg, tokens),
        tokens.len() <= usize::MAX,
        forward::are_targets(cfg, tokens, targets),
        forward::forward_done(params, cfg, tokens, Some(targets), training, s, k, loss),
        loss_slopes::told(m, scalar::terms(k.probs@), targets, cfg.vocab_size as int),
        forward::drops(cfg, training) ==> (m.bits)(cfg.dropout) != 1real,
        0 <= i < params.len(),
        m.rate(params[i]) == 1real,
        forall|j: int| 0 <= j < params.len() && j != i ==> m.rate(#[trigger] params[j]) == 0real,
    ensures
        m.value(
            backward::backward_grads(params, cfg, k, targets, layout::zeros(params.len()))[i],
        ) == m.rate(loss),
{
    let n = params.len() as int;
    let zeros = layout::zeros::<T>(params.len());
    let g = backward::backward_grads(params, cfg, k, targets, zeros);
    law_backward_is_gradient(m, params, cfg, tokens, targets, training, s, k, loss, zeros);
    let f = |j: int| exact::times(m.value(g[j]), m.rate(params[j]));
    assert forall|j: int| 0 <= j < n && j != i implies #[trigger] f(j) == 0real by {
        exact::lemma_units(m.value(g[j]));
    }
    exact::lemma_picked(n, i, f);
    exact::lemma_units(m.value(g[i]));
    let z = |j: int| exact::times(m.value(zeros[j]), m.rate(params[j]));
    assert(m.value(scalar::zero::<T>()) == 0real);
    assert forall|j: int| 0 <= j < n implies #[trigger] z(j) == 0real by {
        exact::lemma_units(m.rate(params[j]));
    }
    exact::lemma_none(n, z);
}

} // verus!
