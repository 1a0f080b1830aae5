//! The backward pass.
use crate::attention::Dims;
use crate::block;
use crate::block::{add_weight_grads, back_norm_in, block_backward, clear, Flow};
use crate::cache;
use crate::cache::{BlockTerms, Cache};
use crate::forward;
use crate::layers;
use crate::layout;
use crate::layout::{BlockR, GptConfig, LayerR};
use crate::model;
use crate::model::Gpt;
use crate::ops;
use crate::ops::mm_nn;
use crate::rng;
use crate::scalar;
use crate::scalar::{Num, Scalar, Term};
use vstd::prelude::*;

verus! {

/// The gradient of the mean loss with respect to the logits: the probabilities, less one at
/// the targets, over the number of targets.
pub open spec fn dlogits<T>(probs: Seq<Term<T>>, targets: Seq<u32>, m: int, v: int) -> Seq<Term<T>> {
    let inv = scalar::quotient(scalar::one(), Term::Count(m as usize));
    Seq::new(
        (m * v) as nat,
        |x: int|
            {
                let p = scalar::product(probs[x], inv);
                if x % v == targets[x / v] {
                    scalar::difference(p, inv)
                } else {
                    p
                }
            },
    )
}

/// The way back through the first `n` blocks, the last of them first.
pub open spec fn back_blocks<T>(
    params: Seq<Term<T>>,
    cfg: GptConfig,
    blocks: Seq<BlockTerms<T>>,
    f: Flow<T>,
    d: Dims,
    scale: Term<T>,
    n: nat,
) -> Flow<T>
    decreases n,
{
    if n == 0 {
        f
    } else {
        let l = (n - 1) as nat;
        let bo = layout::block_r(layout::block_off(cfg, l), cfg.n_embd as nat, cfg.bias);
        back_blocks(
            params,
            cfg,
            blocks,
            block::back_block(params, bo, blocks[l as int], f, d, scale),
            d,
            scale,
            l,
        )
    }
}

/// The factor that the gradient at place `i` takes on behind the dropout of the embeddings.
pub open spec fn drop_factor<T>(mask: Seq<u8>, scale: Term<T>, i: int) -> Term<T> {
    if mask.len() == 0 {
        scalar::one()
    } else {
        scalar::product(Term::Count(mask[i] as usize), scale)
    }
}

/// What the embeddings get their gradients from.
pub struct Rows<T> {
    pub tokens: Seq<u32>,
    pub dx: Seq<Term<T>>,
    pub mask: Seq<u8>,
    pub scale: Term<T>,
    pub t: int,
    pub c: int,
}

/// `g` with the gradients at column `e` of the first `n` tokens added that are token `w`.
pub open spec fn token_grad<T>(g: Term<T>, k: Rows<T>, w: int, e: int, n: nat) -> Term<T>
    decreases n,
{
    if n == 0 {
        g
    } else {
        let prev = token_grad(g, k, w, e, (n - 1) as nat);
        if k.tokens[n - 1] == w {
            scalar::sum(
                prev,
                scalar::product(
                    k.dx[(n - 1) * k.c + e],
                    drop_factor(k.mask, k.scale, (n - 1) * k.c + e),
                ),
            )
        } else {
            prev
        }
    }
}

/// `g` with the gradients at column `e` of the first `n` tokens added that are at
/// position `p`.
pub open spec fn position_grad<T>(g: Term<T>, k: Rows<T>, p: int, e: int, n: nat) -> Term<T>
    decreases n,
{
    if n == 0 {
        g
    } else {
        let prev = position_grad(g, k, p, e, (n - 1) as nat);
        if (n - 1) % k.t == p {
            scalar::sum(
                prev,
                scalar::product(
                    k.dx[(n - 1) * k.c + e],
                    drop_factor(k.mask, k.scale, (n - 1) * k.c + e),
                ),
            )
        } else {
            prev
        }
    }
}

/// The gradient at place `x` after `n` tokens.
pub open spec fn embedding_grad_at<T>(
    grads: Seq<Term<T>>,
    k: Rows<T>,
    vc: int,
    tc: int,
    x: int,
    n: nat,
) -> Term<T> {
    if x < vc {
        token_grad(grads[x], k, x / k.c, x % k.c, n)
    } else if x < vc + tc {
        position_grad(grads[x], k, (x - vc) / k.c, (x - vc) % k.c, n)
    } else {
        grads[x]
    }
}

/// The gradients with those of the embeddings added.
pub open spec fn embedding_grads<T>(grads: Seq<Term<T>>, k: Rows<T>, vc: int, tc: int) -> Seq<
    Term<T>,
> {
    Seq::new(
        grads.len(),
        |x: int| embedding_grad_at(grads, k, vc, tc, x, k.tokens.len()),
    )
}

/// The blocks' formulas.
pub open spec fn kept_blocks<T: Scalar>(k: Cache<T>) -> Seq<BlockTerms<T>> {
    Seq::new(k.blocks@.len(), |l: int| k.blocks@[l]@)
}

/// The gradients behind the last normalisation.
pub open spec fn head_flow<T: Scalar>(
    params: Seq<Term<T>>,
    cfg: GptConfig,
    k: Cache<T>,
    targets: Seq<u32>,
    grads: Seq<Term<T>>,
) -> Flow<T> {
    let m = k.tokens@.len() as int;
    let c = cfg.n_embd as nat;
    let v = cfg.vocab_size as int;
    let end = layout::block_off(cfg, cfg.n_layer as nat);
    let dl = dlogits(scalar::terms(k.probs@), targets, m, v);
    let wte = layout::r(0, cfg.vocab_size as nat * c);
    let f = Flow {
        dx: ops::nn(
            layout::zeros((m * c) as nat),
            dl,
            block::region(params, wte),
            m,
            v,
            c as int,
        ),
        grads: block::weight_grads(grads, wte, dl, scalar::terms(k.lnf_out@), m, v, c as int),
    };
    block::back_norm(
        f,
        layers::Norm {
            x: scalar::terms(k.lnf_x@),
            g: block::region(params, layout::r(end, c)),
            mean: scalar::terms(k.lnf_mean@),
            rstd: scalar::terms(k.lnf_rstd@),
        },
        LayerR { g: layout::r(end, c), b: layout::opt_r(cfg.bias, end + c, c) },
        m,
        c as int,
    )
}

/// The gradients after a backward pass that started with `grads`.
pub open spec fn backward_grads<T: Scalar>(
    params: Seq<Term<T>>,
    cfg: GptConfig,
    k: Cache<T>,
    targets: Seq<u32>,
    grads: Seq<Term<T>>,
) -> Seq<Term<T>> {
    let d = cache::dims_of(cfg, k.tokens@.len());
    let f = back_blocks(
        params,
        cfg,
        kept_blocks(k),
        head_flow(params, cfg, k, targets, grads),
        d,
        k.drop_scale@,
        cfg.n_layer as nat,
    );
    embedding_grads(
        f.grads,
        (Rows {
            tokens: k.tokens@,
            dx: f.dx,
            mask: k.emb_mask@,
            scale: k.drop_scale@,
            t: d.t as int,
            c: cfg.n_embd as int,
        }),
        cfg.vocab_size * cfg.n_embd,
        cfg.block_size * cfg.n_embd,
    )
}

/// The cache holds a forward pass with targets that a backward pass can start from.
pub open spec fn returnable<T: Scalar>(cfg: GptConfig, k: Cache<T>) -> bool {
    let m = k.tokens@.len();
    let d = cache::dims_of(cfg, m);
    &&& forward::runnable(cfg, k.tokens@)
    &&& k.sized(d, cfg.vocab_size, cfg.n_layer)
    &&& forall|l: int| 0 <= l < cfg.n_layer ==> block::masks_ok(#[trigger] k.blocks@[l], d)
    &&& k.emb_mask@.len() == 0 || k.emb_mask@.len() == m * cfg.n_embd
    &&& k.probs@.len() == m * cfg.vocab_size
}

/// A forward pass with targets leaves a cache that a backward pass can start from.
pub proof fn law_forward_prepares_backward<T: Scalar>(
    params: Seq<Term<T>>,
    cfg: GptConfig,
    tokens: Seq<u32>,
    targets: Seq<u32>,
    training: bool,
    s: rng::State,
    k: Cache<T>,
    loss: Term<T>,
)
    requires
        forward::runnable(cfg, tokens),
        forward::forward_done(params, cfg, tokens, Some(targets), training, s, k, loss),
    ensures
        returnable(cfg, k),
{
    let d = cache::dims_of(cfg, tokens.len());
    forward::lemma_dims(cfg, tokens.len());
    assert(scalar::terms(k.probs@).len() == k.probs@.len());
    assert forall|l: int| 0 <= l < cfg.n_layer implies block::masks_ok(
        #[trigger] k.blocks@[l],
        d,
    ) by {
        assert(k.blocks@[l].sized(d));
    }
}

/// Turns the probabilities into the gradient of the logits.
fn into_dlogits<T: Scalar>(probs: &mut [Num<T>], targets: &[u32], m: usize, v: usize)
    requires
        old(probs)@.len() == m * v,
        targets@.len() == m,
        forall|i: int| 0 <= i < m ==> #[trigger] targets@[i] < v,
    ensures
        final(probs)@.len() == old(probs)@.len(),
        scalar::terms(final(probs)@) == dlogits(
            scalar::terms(old(probs)@),
            targets@,
            m as int,
            v as int,
        ),
{
    let ghost p0 = scalar::terms(probs@);
    let ghost dl = dlogits(p0, targets@, m as int, v as int);
    let n: usize = probs.len();
    let inv: Num<T> = Num::bits(0x3f80_0000).over(Num::count(m));
    let mut i: usize = 0;
    while i < m
        invariant
            i <= m,
            n == probs@.len(),
            n == p0.len(),
            n == m * v,
            targets@.len() == m,
            forall|j: int| 0 <= j < m ==> #[trigger] targets@[j] < v,
            inv@ == scalar::quotient(scalar::one(), Term::<T>::Count(m)),
            dl == dlogits(p0, targets@, m as int, v as int),
            forall|x: int|
                0 <= x < n ==> (#[trigger] probs@[x])@ == if x < i * v {
                    dl[x]
                } else {
                    p0[x]
                },
        decreases m - i,
    {
        proof {
            ops::lemma_row_end(i as int, m as int, v as int);
        }
        let base: usize = i * v;
        let mut o: usize = 0;
        while o < v
            invariant
                o <= v,
                n == probs@.len(),
                n == p0.len(),
                base == i * v,
                base + v <= n,
                inv@ == scalar::quotient(scalar::one(), Term::<T>::Count(m)),
                forall|x: int|
                    0 <= x < n ==> (#[trigger] probs@[x])@ == if x < base {
                        dl[x]
                    } else if x < base + o {
                        scalar::product(p0[x], inv@)
                    } else {
                        p0[x]
                    },
            decreases v - o,
        {
            probs[base + o] = probs[base + o].times(inv);
            o += 1;
        }
        let w: usize = base + targets[i] as usize;
        probs[w] = probs[w].minus(inv);
        assert forall|x: int| 0 <= x < n implies (#[trigger] probs@[x])@ == if x < base + v {
            dl[x]
        } else {
            p0[x]
        } by {
            if base <= x < base + v {
                ops::lemma_cell(i as int, v as int, x - base);
            }
        }
        i += 1;
    }
    assert(scalar::terms(probs@) =~= dl);
}

/// Places in different columns or rows are different; the next place in a row.
proof fn lemma_columns(x: int, c: int, row: int, e: int)
    requires
        0 <= e < c,
        0 <= x,
    ensures
        (x == row * c + e) <==> (x / c == row && x % c == e),
{
    if x == row * c + e {
        ops::lemma_cell(row, c, e);
    }
    vstd::arithmetic::div_mod::lemma_fundamental_div_mod(x, c);
    if x / c == row && x % c == e {
        assert(c * row == row * c) by (nonlinear_arith);
    }
}

/// Adds the gradients of the embeddings.
fn add_embedding_grads<T: Scalar>(
    grads: &mut [Num<T>],
    cfg: &GptConfig,
    tokens: &[u32],
    dx: &[Num<T>],
    mask: &[u8],
    scale: Num<T>,
    t: usize,
    Ghost(k): Ghost<Rows<T>>,
)
    requires
        0 < t <= cfg.block_size,
        cfg.vocab_size * cfg.n_embd + cfg.block_size * cfg.n_embd <= old(grads)@.len(),
        dx@.len() == tokens@.len() * cfg.n_embd,
        mask@.len() == 0 || mask@.len() == tokens@.len() * cfg.n_embd,
        forall|i: int| 0 <= i < tokens@.len() ==> #[trigger] tokens@[i] < cfg.vocab_size,
        k == (Rows {
            tokens: tokens@,
            dx: scalar::terms(dx@),
            mask: mask@,
            scale: scale@,
            t: t as int,
            c: cfg.n_embd as int,
        }),
    ensures
        final(grads)@.len() == old(grads)@.len(),
        scalar::terms(final(grads)@) == embedding_grads(
            scalar::terms(old(grads)@),
            k,
            cfg.vocab_size * cfg.n_embd,
            cfg.block_size * cfg.n_embd,
        ),
{
    let ghost g0 = scalar::terms(grads@);
    let n: usize = grads.len();
    let size: usize = dx.len();
    let m: usize = tokens.len();
    let c: usize = cfg.n_embd;
    proof {
        assert(cfg.vocab_size * c >= 0) by (nonlinear_arith)
            requires
                c >= 0,
        ;
        assert(cfg.block_size * c >= 0) by (nonlinear_arith)
            requires
                c >= 0,
        ;
    }
    let vc: usize = cfg.vocab_size * c;
    let tc: usize = cfg.block_size * c;
    let masked: bool = mask.len() != 0;
    let mut i: usize = 0;
    while i < m
        invariant
            i <= m,
            m == tokens@.len(),
            n == grads@.len(),
            n == g0.len(),
            size == dx@.len(),
            size == m * c,
            c == cfg.n_embd,
            vc == cfg.vocab_size * c,
            tc == cfg.block_size * c,
            vc + tc <= n,
            0 < t <= cfg.block_size,
            masked == (mask@.len() != 0),
            mask@.len() == 0 || mask@.len() == m * c,
            forall|j: int| 0 <= j < m ==> #[trigger] tokens@[j] < cfg.vocab_size,
            k == (Rows {
                tokens: tokens@,
                dx: scalar::terms(dx@),
                mask: mask@,
                scale: scale@,
                t: t as int,
                c: c as int,
            }),
            forall|x: int|
                0 <= x < n ==> (#[trigger] grads@[x])@ == embedding_grad_at(
                    g0,
                    k,
                    vc as int,
                    tc as int,
                    x,
                    i as nat,
                ),
        decreases m - i,
    {
        let tok: usize = tokens[i] as usize;
        let pos: usize = i % t;
        proof {
            ops::lemma_row_end(i as int, m as int, c as int);
            ops::lemma_row_end(tok as int, cfg.vocab_size as int, c as int);
            ops::lemma_row_end(pos as int, cfg.block_size as int, c as int);
        }
        if c == 0 {
            assert forall|x: int| 0 <= x < n implies (#[trigger] grads@[x])@ == embedding_grad_at(
                g0,
                k,
                vc as int,
                tc as int,
                x,
                (i + 1) as nat,
            ) by {
                assert(vc == 0 && tc == 0) by (nonlinear_arith)
                    requires
                        c == 0,
                        vc == cfg.vocab_size * c,
                        tc == cfg.block_size * c,
                ;
            }
            i += 1;
            continue;
        }
        let base: usize = i * c;
        let te: usize = tok * c;
        let pe: usize = vc + pos * c;
        let mut e: usize = 0;
        while e < c
            invariant
                e <= c,
                i < m,
                m == tokens@.len(),
                n == grads@.len(),
                n == g0.len(),
                size == dx@.len(),
                c == cfg.n_embd,
                vc == cfg.vocab_size * c,
                tc == cfg.block_size * c,
                vc + tc <= n,
                base == i * c,
                base + c <= size,
                tok == tokens@[i as int],
                pos == i as int % t as int,
                te == tok * c,
                te + c <= vc,
                pe == vc + pos * c,
                pe + c <= vc + tc,
                masked == (mask@.len() != 0),
                mask@.len() == 0 || mask@.len() == size,
                k == (Rows {
                    tokens: tokens@,
                    dx: scalar::terms(dx@),
                    mask: mask@,
                    scale: scale@,
                    t: t as int,
                    c: c as int,
                }),
                forall|x: int|
                    0 <= x < n ==> (#[trigger] grads@[x])@ == embedding_grad_at(
                        g0,
                        k,
                        vc as int,
                        tc as int,
                        x,
                        if (if x < vc {
                            x % c as int
                        } else {
                            (x - vc) % c as int
                        }) < e {
                            (i + 1) as nat
                        } else {
                            i as nat
                        },
                    ),
            decreases c - e,
        {
            let ghost before = scalar::terms(grads@);
            let s: Num<T> = if masked {
                Num::count(mask[base + e] as usize).times(scale)
            } else {
                Num::bits(0x3f80_0000)
            };
            let g: Num<T> = dx[base + e].times(s);
            grads[te + e] = grads[te + e].plus(g);
            grads[pe + e] = grads[pe + e].plus(g);
            assert forall|x: int| 0 <= x < n implies (#[trigger] grads@[x])@ == embedding_grad_at(
                g0,
                k,
                vc as int,
                tc as int,
                x,
                if (if x < vc {
                    x % c as int
                } else {
                    (x - vc) % c as int
                }) < e + 1 {
                    (i + 1) as nat
                } else {
                    i as nat
                },
            ) by {
                if x < vc {
                    lemma_columns(x, c as int, tok as int, e as int);
                } else {
                    lemma_columns(x - vc, c as int, pos as int, e as int);
                }
                assert(before[x] == embedding_grad_at(
                    g0,
                    k,
                    vc as int,
                    tc as int,
                    x,
                    if (if x < vc {
                        x % c as int
                    } else {
                        (x - vc) % c as int
                    }) < e {
                        (i + 1) as nat
                    } else {
                        i as nat
                    },
                ));
            }
            e += 1;
        }
        assert forall|x: int| 0 <= x < n implies (#[trigger] grads@[x])@ == embedding_grad_at(
            g0,
            k,
            vc as int,
            tc as int,
            x,
            (i + 1) as nat,
        ) by {
            if x < vc {
                vstd::arithmetic::div_mod::lemma_mod_bound(x, c as int);
            } else {
                vstd::arithmetic::div_mod::lemma_mod_bound(x - vc, c as int);
            }
        }
        i += 1;
    }
    assert(scalar::terms(grads@) =~= embedding_grads(g0, k, vc as int, tc as int));
}

/// The way back through the blocks.
fn return_blocks<T: Scalar>(
    params: &[Num<T>],
    cfg: &GptConfig,
    blocks: &[BlockR],
    grads: &mut [Num<T>],
    cache: &mut Cache<T>,
    d: Dims,
)
    requires
        model::buildable(*cfg),
        params@.len() == layout::total_len(*cfg),
        blocks@.len() == cfg.n_layer,
        forall|l: int|
            0 <= l < cfg.n_layer ==> #[trigger] blocks@[l] == layout::block_r(
                layout::block_off(*cfg, l as nat),
                cfg.n_embd as nat,
                cfg.bias,
            ),
        old(grads)@.len() == params@.len(),
        cache::fits(d),
        d.c == cfg.n_embd,
        old(cache).sized(d, cfg.vocab_size, cfg.n_layer),
        forall|l: int|
            0 <= l < cfg.n_layer ==> block::masks_ok(#[trigger] old(cache).blocks@[l], d),
    ensures
        final(grads)@.len() == old(grads)@.len(),
        final(cache).sized(d, cfg.vocab_size, cfg.n_layer),
        *final(cache) == (Cache {
            dx: final(cache).dx,
            scratch: final(cache).scratch,
            ..*old(cache)
        }),
        (Flow {
            dx: scalar::terms(final(cache).dx@),
            grads: scalar::terms(final(grads)@),
        }) == back_blocks(
            scalar::terms(params@),
            *cfg,
            kept_blocks(*old(cache)),
            (Flow { dx: scalar::terms(old(cache).dx@), grads: scalar::terms(old(grads)@) }),
            d,
            old(cache).drop_scale@,
            cfg.n_layer as nat,
        ),
{
    let scale: Num<T> = cache.drop_scale;
    let ghost pt = scalar::terms(params@);
    let ghost kept = kept_blocks(*cache);
    let ghost want = back_blocks(
        pt,
        *cfg,
        kept,
        Flow { dx: scalar::terms(cache.dx@), grads: scalar::terms(grads@) },
        d,
        scale@,
        cfg.n_layer as nat,
    );
    let mut n: usize = cfg.n_layer;
    while n > 0
        invariant
            n <= cfg.n_layer,
            model::buildable(*cfg),
            params@.len() == layout::total_len(*cfg),
            blocks@.len() == cfg.n_layer,
            forall|l: int|
                0 <= l < cfg.n_layer ==> #[trigger] blocks@[l] == layout::block_r(
                    layout::block_off(*cfg, l as nat),
                    cfg.n_embd as nat,
                    cfg.bias,
                ),
            pt == scalar::terms(params@),
            scale == old(cache).drop_scale,
            kept == kept_blocks(*old(cache)),
            grads@.len() == params@.len(),
            cache::fits(d),
            d.c == cfg.n_embd,
            cache.sized(d, cfg.vocab_size, cfg.n_layer),
            *cache == (Cache { dx: cache.dx, scratch: cache.scratch, ..*old(cache) }),
            forall|l: int|
                0 <= l < cfg.n_layer ==> block::masks_ok(#[trigger] old(cache).blocks@[l], d),
            want == back_blocks(
                pt,
                *cfg,
                kept,
                (Flow { dx: scalar::terms(cache.dx@), grads: scalar::terms(grads@) }),
                d,
                scale@,
                n as nat,
            ),
        decreases n,
    {
        let l: usize = n - 1;
        proof {
            model::lemma_block_fits(*cfg, l as nat);
            assert(block::masks_ok(old(cache).blocks@[l as int], d));
            assert(kept[l as int] == cache.blocks@[l as int]@);
        }
        let bo: BlockR = blocks[l];
        block_backward(
            params,
            grads,
            &bo,
            &cache.blocks[l],
            cache.dx.as_mut_slice(),
            &mut cache.scratch,
            d,
            scale,
        );
        n -= 1;
    }
}

impl<T: Scalar> Gpt<T> {
    /// The backward pass: adds the gradients of all parameters to `grads`, which were set to
    /// zero before. The probabilities in the cache are turned into the gradients of the
    /// logits.
    pub fn backward(&mut self, cache: &mut Cache<T>, targets: &[u32])
        requires
            old(self).ok(),
            returnable(old(self).cfg, *old(cache)),
            forward::are_targets(old(self).cfg, old(cache).tokens@, targets@),
        ensures
            scalar::terms(final(self).grads@) == backward_grads(
                scalar::terms(old(self).params@),
                old(self).cfg,
                *old(cache),
                targets@,
                scalar::terms(old(self).grads@),
            ),
            *final(self) == (Gpt { grads: final(self).grads, ..*old(self) }),
            final(self).ok(),
            *final(cache) == (Cache {
                probs: final(cache).probs,
                dx: final(cache).dx,
                scratch: final(cache).scratch,
                ..*old(cache)
            }),
            scalar::terms(final(cache).probs@) == dlogits(
                scalar::terms(old(cache).probs@),
                targets@,
                old(cache).tokens@.len() as int,
                old(self).cfg.vocab_size as int,
            ),
    {
        let cfg: GptConfig = self.cfg;
        let m: usize = cache.tokens.len();
        let t: usize = cache.t;
        let c: usize = cfg.n_embd;
        let v: usize = cfg.vocab_size;
        let d = Dims { b: cache.b, t, c, nh: cfg.n_head, hs: c / cfg.n_head };
        assert(d == cache::dims_of(cfg, m as nat));
        let ghost k0 = *cache;
        let ghost pt = scalar::terms(self.params@);
        proof {
            forward::lemma_dims(cfg, m as nat);
            model::lemma_ends_fit(cfg);
            cache::lemma_fits(d);
        }
        let ghost g0 = scalar::terms(self.grads@);
        into_dlogits(cache.probs.as_mut_slice(), targets, m, v);
        clear(cache.dx.as_mut_slice());
        let params = self.params.as_slice();
        let wte = vstd::slice::slice_subrange(params, 0, v * c);
        assert(scalar::terms(wte@) =~= block::region(pt, self.wte));
        mm_nn(cache.dx.as_mut_slice(), cache.probs.as_slice(), wte, m, v, c);
        add_weight_grads(
            self.grads.as_mut_slice(),
            self.wte,
            cache.probs.as_slice(),
            cache.lnf_out.as_slice(),
            m,
            v,
            c,
        );
        back_norm_in(
            cache.dx.as_mut_slice(),
            cache.lnf_x.as_slice(),
            params,
            self.lnf,
            cache.lnf_mean.as_slice(),
            cache.lnf_rstd.as_slice(),
            self.grads.as_mut_slice(),
            m,
            c,
        );
        assert((Flow { dx: scalar::terms(cache.dx@), grads: scalar::terms(self.grads@) })
            == head_flow(pt, cfg, k0, targets@, g0));
        return_blocks(
            params,
            &cfg,
            self.blocks.as_slice(),
            self.grads.as_mut_slice(),
            cache,
            d,
        );
        assert(kept_blocks(*cache) =~= kept_blocks(k0));
        let ghost k = Rows {
            tokens: cache.tokens@,
            dx: scalar::terms(cache.dx@),
            mask: cache.emb_mask@,
            scale: cache.drop_scale@,
            t: t as int,
            c: c as int,
        };
        add_embedding_grads(
            self.grads.as_mut_slice(),
            &cfg,
            cache.tokens.as_slice(),
            cache.dx.as_slice(),
            cache.emb_mask.as_slice(),
            cache.drop_scale,
            t,
            Ghost(k),
        );
    }
}

} // verus!
