//! What a prediction depends on.
//!
//! What the model makes of a position depends on the tokens up to that position in the same
//! sequence and, in training, on the masks of the dropout. It depends on nothing else: not on
//! later tokens, not on other sequences of the batch, and not on what the buffers held before.
use crate::attention;
use crate::attention::Dims;
use crate::block;
use crate::block::DropTerms;
use crate::cache;
use crate::cache::{BlockTerms, Cache};
use crate::forward;
use crate::layers;
use crate::layout;
use crate::layout::{BlockR, GptConfig};
use crate::ops;
use crate::rng;
use crate::scalar;
use crate::scalar::{Scalar, Term};
use crate::settled;
use vstd::prelude::*;

verus! {

/// The sequences agree from `lo` up to `hi`.
pub open spec fn agree<A>(a: Seq<A>, b: Seq<A>, lo: int, hi: int) -> bool {
    forall|z: int| lo <= z < hi ==> #[trigger] a[z] == b[z]
}

/// A place in the rows from `p` up to `q` of a matrix with `w` columns.
proof fn lemma_in_rows(z: int, p: int, q: int, w: int)
    requires
        0 <= p,
        0 <= w,
        p * w <= z < q * w,
    ensures
        w > 0,
        p <= z / w < q,
        p * w <= (z / w) * w,
        (z / w) * w + w <= q * w,
        0 <= z % w < w,
        z == (z / w) * w + z % w,
        0 <= z,
{
    assert(0 <= p * w) by (nonlinear_arith)
        requires
            0 <= p,
            0 <= w,
    ;
    attention::lemma_div_below(z, q, w);
    let r = z / w;
    assert(p <= r) by (nonlinear_arith)
        requires
            p * w <= z,
            z < r * w + w,
            w > 0,
    ;
    assert(p * w <= r * w && r * w + w <= q * w) by (nonlinear_arith)
        requires
            p <= r,
            r + 1 <= q,
            w > 0,
    ;
}

/// The same row of two matrices that agree there.
proof fn lemma_same_row<A>(a: Seq<A>, b: Seq<A>, p: int, q: int, w: int, r: int)
    requires
        agree(a, b, p * w, q * w),
        p * w <= r * w,
        r * w + w <= q * w,
        0 <= r * w,
        0 <= w,
        q * w <= a.len(),
        q * w <= b.len(),
    ensures
        layers::row(a, r, w) == layers::row(b, r, w),
{
    let x = layers::row(a, r, w);
    let y = layers::row(b, r, w);
    assert forall|i: int| 0 <= i < w implies x[i] == y[i] by {
        assert(a[r * w + i] == b[r * w + i]);
    }
    assert(x =~= y);
}

proof fn lemma_normalised<T>(
    a: Seq<Term<T>>,
    b: Seq<Term<T>>,
    g: Seq<Term<T>>,
    bias: Option<Seq<Term<T>>>,
    rows: int,
    c: int,
    p: int,
    q: int,
)
    requires
        0 <= p,
        q <= rows,
        0 <= c,
        rows * c <= a.len(),
        rows * c <= b.len(),
        agree(a, b, p * c, q * c),
    ensures
        agree(
            layers::normalised(a, g, bias, rows, c),
            layers::normalised(b, g, bias, rows, c),
            p * c,
            q * c,
        ),
{
    let x = layers::normalised(a, g, bias, rows, c);
    let y = layers::normalised(b, g, bias, rows, c);
    assert(q * c <= rows * c) by (nonlinear_arith)
        requires
            q <= rows,
            0 <= c,
    ;
    assert forall|z: int| p * c <= z < q * c implies #[trigger] x[z] == y[z] by {
        lemma_in_rows(z, p, q, c);
        lemma_same_row(a, b, p, q, c, z / c);
        assert(a[z] == b[z]);
    }
}

proof fn lemma_nn_entry<T>(
    s: Term<T>,
    a: Seq<Term<T>>,
    b: Seq<Term<T>>,
    w: Seq<Term<T>>,
    m: int,
    o: int,
    k: int,
    cols: int,
    n: nat,
)
    requires
        agree(a, b, m * k, m * k + n),
    ensures
        ops::nn_entry(s, a, w, m, o, k, cols, n) == ops::nn_entry(s, b, w, m, o, k, cols, n),
    decreases n,
{
    if n > 0 {
        lemma_nn_entry(s, a, b, w, m, o, k, cols, (n - 1) as nat);
        assert(a[m * k + (n - 1)] == b[m * k + (n - 1)]);
    }
}

proof fn lemma_linear<T>(
    a: Seq<Term<T>>,
    b: Seq<Term<T>>,
    w: Seq<Term<T>>,
    bias: Option<Seq<Term<T>>>,
    rows: int,
    k: int,
    cols: int,
    p: int,
    q: int,
)
    requires
        0 <= p,
        q <= rows,
        0 <= rows,
        0 <= k,
        0 <= cols,
        agree(a, b, p * k, q * k),
    ensures
        agree(
            block::linear(a, w, bias, rows, k, cols),
            block::linear(b, w, bias, rows, k, cols),
            p * cols,
            q * cols,
        ),
        block::linear(a, w, bias, rows, k, cols).len() == rows * cols,
{
    let zero = layout::zeros::<T>((rows * cols) as nat);
    let x = ops::nn(zero, a, w, rows, k, cols);
    let y = ops::nn(zero, b, w, rows, k, cols);
    assert(q * cols <= rows * cols && 0 <= rows * cols) by (nonlinear_arith)
        requires
            q <= rows,
            0 <= rows,
            0 <= cols,
    ;
    assert forall|z: int| p * cols <= z < q * cols implies #[trigger] x[z] == y[z] by {
        lemma_in_rows(z, p, q, cols);
        let m = z / cols;
        assert(p * k <= m * k && m * k + k <= q * k) by (nonlinear_arith)
            requires
                p <= m,
                m + 1 <= q,
                0 <= k,
        ;
        lemma_nn_entry(zero[z], a, b, w, m, z % cols, k, cols, k as nat);
    }
    if let Some(bb) = bias {
        let u = ops::biased(x, bb, rows, cols);
        let v = ops::biased(y, bb, rows, cols);
        assert forall|z: int| p * cols <= z < q * cols implies #[trigger] u[z] == v[z] by {
            lemma_in_rows(z, p, q, cols);
            assert(x[z] == y[z]);
        }
    }
}

proof fn lemma_dot<T>(a: Seq<Term<T>>, b: Seq<Term<T>>, ai: int, bi: int, n: nat)
    requires
        agree(a, b, ai, ai + n),
        agree(a, b, bi, bi + n),
    ensures
        ops::dot(a, a, ai, bi, n) == ops::dot(b, b, ai, bi, n),
    decreases n,
{
    if n > 0 {
        lemma_dot(a, b, ai, bi, (n - 1) as nat);
        assert(a[ai + n - 1] == b[ai + n - 1]);
        assert(a[bi + n - 1] == b[bi + n - 1]);
    }
}

/// Queries, keys and values of a position lie in its row.
proof fn lemma_at_in_row(d: Dims, bb: int, i: int, j: int, part: int, h: int)
    requires
        d.ok(),
        0 <= bb < d.b,
        0 <= j <= i < d.t,
        0 <= part < 3,
        0 <= h < d.nh,
    ensures
        (bb * d.t) * (3 * d.c) <= d.at(bb, j, part, h),
        d.at(bb, j, part, h) + d.hs <= (bb * d.t + i + 1) * (3 * d.c),
{
    attention::lemma_at(d, bb, j, part, h);
    let w = 3 * d.c;
    let s = bb * d.t;
    assert(s * w <= (s + j) * w && (s + j) * w + w <= (s + i + 1) * w) by (nonlinear_arith)
        requires
            0 <= j <= i,
            0 <= w,
    ;
}

proof fn lemma_scores<T>(
    a: Seq<Term<T>>,
    b: Seq<Term<T>>,
    d: Dims,
    bb: int,
    i: int,
    ii: int,
    h: int,
)
    requires
        d.ok(),
        0 <= bb < d.b,
        0 <= ii <= i < d.t,
        0 <= h < d.nh,
        agree(a, b, (bb * d.t) * (3 * d.c), (bb * d.t + i + 1) * (3 * d.c)),
    ensures
        attention::scores(a, d, bb, ii, h) == attention::scores(b, d, bb, ii, h),
{
    let x = attention::scores(a, d, bb, ii, h);
    let y = attention::scores(b, d, bb, ii, h);
    assert forall|j: int| 0 <= j <= ii implies x[j] == y[j] by {
        lemma_at_in_row(d, bb, i, ii, 0, h);
        lemma_at_in_row(d, bb, i, j, 1, h);
        lemma_dot(a, b, d.at(bb, ii, 0, h), d.at(bb, j, 1, h), d.hs as nat);
    }
    assert(x =~= y);
}

/// The place of the weight with which position `ii` attends to position `j`.
pub proof fn lemma_weight_place(d: Dims, bb: int, ii: int, j: int, h: int)
    requires
        d.ok(),
        0 <= bb < d.b,
        0 <= j <= ii < d.t,
        0 <= h < d.nh,
    ensures
        ({
            let x = d.weight_row(bb, ii, h) + j;
            let r = x / d.t as int;
            &&& 0 <= x < d.b * d.nh * d.t * d.t
            &&& x % d.t as int == j
            &&& r % d.t as int == ii
            &&& (r / d.t as int) / d.nh as int == bb
            &&& (r / d.t as int) % d.nh as int == h
            &&& attention::attends(d, x)
        }),
{
    attention::lemma_weight_row(d, bb, ii, h);
    ops::lemma_cell((bb * d.nh + h) * d.t + ii, d.t as int, j);
    ops::lemma_cell(bb * d.nh + h, d.t as int, ii);
    ops::lemma_cell(bb, d.nh as int, h);
}

/// The sequences agree at the `j`-th of places that lie `stride` apart.
spec fn agree_at<A>(a: Seq<A>, b: Seq<A>, at: int, stride: int, j: int) -> bool {
    a[at + j * stride] == b[at + j * stride]
}

proof fn lemma_weighted<T>(
    s: Term<T>,
    v: Seq<Term<T>>,
    w: Seq<Term<T>>,
    a: Seq<Term<T>>,
    b: Seq<Term<T>>,
    at: int,
    stride: int,
    n: nat,
)
    requires
        agree(v, w, 0, n as int),
        forall|j: int| 0 <= j < n ==> #[trigger] agree_at(a, b, at, stride, j),
    ensures
        attention::weighted(s, v, a, at, stride, n) == attention::weighted(s, w, b, at, stride, n),
    decreases n,
{
    if n > 0 {
        lemma_weighted(s, v, w, a, b, at, stride, (n - 1) as nat);
        assert(v[n - 1] == w[n - 1]);
        assert(agree_at(a, b, at, stride, n - 1));
    }
}

/// Two passes through a block had the same masks.
pub open spec fn same_block_masks<T>(k1: BlockTerms<T>, k2: BlockTerms<T>) -> bool {
    &&& k1.att_mask == k2.att_mask
    &&& k1.resid_mask == k2.resid_mask
    &&& k1.mlp_mask == k2.mlp_mask
}

/// Two passes had the same masks.
pub open spec fn same_masks<T: Scalar>(cfg: GptConfig, k1: Cache<T>, k2: Cache<T>) -> bool {
    &&& k1.emb_mask@ == k2.emb_mask@
    &&& forall|l: int|
        #![trigger k1.blocks@[l]]
        #![trigger k2.blocks@[l]]
        0 <= l < cfg.n_layer ==> same_block_masks(k1.blocks@[l]@, k2.blocks@[l]@)
}

/// What attention makes of a position depends on the queries, keys and values up to it.
proof fn lemma_outputs<T>(
    a: Seq<Term<T>>,
    b: Seq<Term<T>>,
    att1: Seq<Term<T>>,
    att2: Seq<Term<T>>,
    mask: Seq<u8>,
    drop: DropTerms<T>,
    d: Dims,
    bb: int,
    i: int,
)
    requires
        d.ok(),
        0 <= bb < d.b,
        0 <= i < d.t,
        agree(a, b, (bb * d.t) * (3 * d.c), (bb * d.t + i + 1) * (3 * d.c)),
        block::are_weights(att1, a, d),
        block::are_weights(att2, b, d),
    ensures
        agree(
            attention::outputs(att1, mask, drop.scale, a, d),
            attention::outputs(att2, mask, drop.scale, b, d),
            (bb * d.t) * d.c,
            (bb * d.t + i + 1) * d.c,
        ),
{
    let x = attention::outputs(att1, mask, drop.scale, a, d);
    let y = attention::outputs(att2, mask, drop.scale, b, d);
    let p = bb * d.t;
    let q = p + i + 1;
    let c = d.c as int;
    assert(0 <= p && q <= d.b * d.t) by (nonlinear_arith)
        requires
            0 <= bb < d.b,
            0 <= i < d.t,
            p == bb * d.t,
            q == p + i + 1,
    ;
    assert(q * c <= d.b * d.t * c) by (nonlinear_arith)
        requires
            q <= d.b * d.t,
            0 <= c,
    ;
    assert forall|z: int| p * c <= z < q * c implies #[trigger] x[z] == y[z] by {
        lemma_in_rows(z, p, q, c);
        let row = z / c;
        let col = z % c;
        let ii = row - p;
        ops::lemma_cell(bb, d.t as int, ii);
        attention::lemma_div_below(col, d.nh as int, d.hs as int);
        let h = col / d.hs as int;
        let e = col % d.hs as int;
        let v = attention::applied_weights(att1, mask, drop.scale, d, bb, ii, h);
        let w = attention::applied_weights(att2, mask, drop.scale, d, bb, ii, h);
        lemma_scores(a, b, d, bb, i, ii, h);
        let at = d.at(bb, 0, 2, h) + e;
        assert forall|j: int| 0 <= j < ii + 1 implies #[trigger] v[j] == w[j] by {
            lemma_weight_place(d, bb, ii, j, h);
            let place = d.weight_row(bb, ii, h) + j;
            assert(att1[place] == attention::weight(a, d, place));
            assert(att2[place] == attention::weight(b, d, place));
        }
        assert forall|j: int| 0 <= j < ii + 1 implies #[trigger] agree_at(a, b, at, 3 * d.c, j) by {
            attention::lemma_stride(d, bb, j, 2, h);
            lemma_at_in_row(d, bb, i, j, 2, h);
            let from = d.at(bb, j, 2, h) + e;
            assert(a[from] == b[from]);
        }
        lemma_weighted(scalar::zero(), v, w, a, b, at, 3 * d.c, (ii + 1) as nat);
    }
}

/// What a block makes of a position depends on what it was given for the positions up to it.
proof fn lemma_block<T: Scalar>(
    params: Seq<Term<T>>,
    bo: BlockR,
    src1: Seq<Term<T>>,
    src2: Seq<Term<T>>,
    k1: BlockTerms<T>,
    k2: BlockTerms<T>,
    dst1: Seq<Term<T>>,
    dst2: Seq<Term<T>>,
    d: Dims,
    drop: DropTerms<T>,
    s1: rng::State,
    s2: rng::State,
    bb: int,
    i: int,
)
    requires
        cache::fits(d),
        0 <= bb < d.b,
        0 <= i < d.t,
        same_block_masks(k1, k2),
        src1.len() == d.b * d.t * d.c,
        src2.len() == d.b * d.t * d.c,
        block::block_done(params, bo, src1, k1, dst1, d, drop, s1),
        block::block_done(params, bo, src2, k2, dst2, d, drop, s2),
        agree(src1, src2, (bb * d.t) * d.c, (bb * d.t + i + 1) * d.c),
    ensures
        agree(dst1, dst2, (bb * d.t) * d.c, (bb * d.t + i + 1) * d.c),
        dst1.len() == d.b * d.t * d.c,
        dst2.len() == d.b * d.t * d.c,
{
    let m = d.b * d.t;
    let c = d.c as int;
    let p = bb * d.t;
    let q = p + i + 1;
    assert(0 <= p && q <= m) by (nonlinear_arith)
        requires
            0 <= bb < d.b,
            0 <= i < d.t,
            p == bb * d.t,
            q == p + i + 1,
            m == d.b * d.t,
    ;
    cache::lemma_fits(d);
    assert(0 <= p * c && q * c <= m * c) by (nonlinear_arith)
        requires
            0 <= p,
            q <= m,
            0 <= c,
    ;
    lemma_normalised(
        src1,
        src2,
        block::region(params, bo.ln1.g),
        block::opt_region(params, bo.ln1.b),
        m,
        c,
        p,
        q,
    );
    lemma_linear(
        k1.ln1_out,
        k2.ln1_out,
        block::region(params, bo.attn_w),
        block::opt_region(params, bo.attn_b),
        m,
        c,
        3 * c,
        p,
        q,
    );
    lemma_outputs(k1.qkv, k2.qkv, k1.att, k2.att, k1.att_mask, drop, d, bb, i);
    let w = block::region(params, bo.proj_w);
    let wb = block::opt_region(params, bo.proj_b);
    lemma_linear(k1.attn_out, k2.attn_out, w, wb, m, c, c, p, q);
    lemma_linear(k2.attn_out, k2.attn_out, w, wb, m, c, c, p, q);
    let y1 = block::linear(k1.attn_out, w, wb, m, c, c);
    let y2 = block::linear(k2.attn_out, w, wb, m, c, c);
    lemma_dropped(y1, y2, k1.resid_mask, drop, p * c, q * c);
    lemma_added(
        block::dropped(y1, k1.resid_mask, drop),
        block::dropped(y2, k1.resid_mask, drop),
        src1,
        src2,
        p * c,
        q * c,
    );
    lemma_normalised(
        k1.x2,
        k2.x2,
        block::region(params, bo.ln2.g),
        block::opt_region(params, bo.ln2.b),
        m,
        c,
        p,
        q,
    );
    let f = block::region(params, bo.fc_w);
    let fb = block::opt_region(params, bo.fc_b);
    lemma_linear(k1.ln2_out, k2.ln2_out, f, fb, m, c, 4 * c, p, q);
    lemma_linear(k2.ln2_out, k2.ln2_out, f, fb, m, c, 4 * c, p, q);
    assert(agree(k1.gelu_out, k2.gelu_out, p * (4 * c), q * (4 * c))) by {
        assert(0 <= p * (4 * c) && q * (4 * c) <= m * (4 * c)) by (nonlinear_arith)
            requires
                0 <= p,
                q <= m,
                0 <= c,
        ;
        assert forall|z: int| p * (4 * c) <= z < q * (4 * c) implies #[trigger] k1.gelu_out[z]
            == k2.gelu_out[z] by {
            assert(k1.fc_out[z] == k2.fc_out[z]);
        }
    }
    let v = block::region(params, bo.mlp_w);
    let vb = block::opt_region(params, bo.mlp_b);
    lemma_linear(k1.gelu_out, k2.gelu_out, v, vb, m, 4 * c, c, p, q);
    lemma_linear(k2.gelu_out, k2.gelu_out, v, vb, m, 4 * c, c, p, q);
    lemma_dropped(
        block::linear(k1.gelu_out, v, vb, m, 4 * c, c),
        block::linear(k2.gelu_out, v, vb, m, 4 * c, c),
        k1.mlp_mask,
        drop,
        p * c,
        q * c,
    );
    lemma_added(k1.x2, k2.x2, k1.mlp_out, k2.mlp_out, p * c, q * c);
}

proof fn lemma_dropped<T>(
    a: Seq<Term<T>>,
    b: Seq<Term<T>>,
    mask: Seq<u8>,
    drop: DropTerms<T>,
    lo: int,
    hi: int,
)
    requires
        0 <= lo,
        hi <= a.len(),
        hi <= b.len(),
        agree(a, b, lo, hi),
    ensures
        agree(block::dropped(a, mask, drop), block::dropped(b, mask, drop), lo, hi),
        block::dropped(a, mask, drop).len() == a.len(),
        block::dropped(b, mask, drop).len() == b.len(),
{
    let x = block::dropped(a, mask, drop);
    let y = block::dropped(b, mask, drop);
    assert forall|z: int| lo <= z < hi implies #[trigger] x[z] == y[z] by {
        assert(a[z] == b[z]);
    }
}

proof fn lemma_added<T>(
    a1: Seq<Term<T>>,
    a2: Seq<Term<T>>,
    b1: Seq<Term<T>>,
    b2: Seq<Term<T>>,
    lo: int,
    hi: int,
)
    requires
        0 <= lo,
        hi <= a1.len(),
        hi <= a2.len(),
        agree(a1, a2, lo, hi),
        agree(b1, b2, lo, hi),
    ensures
        agree(block::added(a1, b1), block::added(a2, b2), lo, hi),
{
    let x = block::added(a1, b1);
    let y = block::added(a2, b2);
    assert forall|z: int| lo <= z < hi implies #[trigger] x[z] == y[z] by {
        assert(a1[z] == a2[z]);
        assert(b1[z] == b2[z]);
    }
}

proof fn lemma_embedded<T>(
    params: Seq<Term<T>>,
    cfg: GptConfig,
    x1: Seq<u32>,
    x2: Seq<u32>,
    t: int,
    p: int,
    q: int,
)
    requires
        x1.len() == x2.len(),
        0 <= p,
        q <= x1.len(),
        agree(x1, x2, p, q),
    ensures
        agree(
            forward::embedded(params, cfg, x1, t),
            forward::embedded(params, cfg, x2, t),
            p * cfg.n_embd,
            q * cfg.n_embd,
        ),
{
    let a = forward::embedded(params, cfg, x1, t);
    let b = forward::embedded(params, cfg, x2, t);
    let c = cfg.n_embd as int;
    assert(q * c <= x1.len() * c) by (nonlinear_arith)
        requires
            q <= x1.len(),
            0 <= c,
    ;
    assert forall|z: int| p * c <= z < q * c implies #[trigger] a[z] == b[z] by {
        lemma_in_rows(z, p, q, c);
        assert(x1[z / c] == x2[z / c]);
    }
}

/// What goes into block `l` at a position depends on the tokens up to it and on the masks.
proof fn lemma_activation<T: Scalar>(
    params: Seq<Term<T>>,
    cfg: GptConfig,
    x1: Seq<u32>,
    x2: Seq<u32>,
    training: bool,
    s1: rng::State,
    s2: rng::State,
    k1: Cache<T>,
    k2: Cache<T>,
    bb: int,
    i: int,
    l: int,
)
    requires
        forward::runnable(cfg, x1),
        forward::activations_done(params, cfg, x1, training, s1, k1),
        forward::activations_done(params, cfg, x2, training, s2, k2),
        same_masks(cfg, k1, k2),
        x1.len() == x2.len(),
        0 <= bb < cache::dims_of(cfg, x1.len()).b,
        0 <= i < cache::dims_of(cfg, x1.len()).t,
        agree(
            x1,
            x2,
            bb * cache::dims_of(cfg, x1.len()).t,
            bb * cache::dims_of(cfg, x1.len()).t + i + 1,
        ),
        0 <= l <= cfg.n_layer,
        x1.len() <= usize::MAX,
    ensures
        ({
            let d = cache::dims_of(cfg, x1.len());
            let a = forward::activation(k1, l);
            let b = forward::activation(k2, l);
            &&& agree(a, b, (bb * d.t) * d.c, (bb * d.t + i + 1) * d.c)
            &&& a.len() == d.b * d.t * d.c
            &&& b.len() == d.b * d.t * d.c
        }),
    decreases l,
{
    let d = cache::dims_of(cfg, x1.len());
    forward::lemma_dims(cfg, x1.len());
    if l == 0 {
        let p = bb * d.t;
        assert(0 <= p && p + i + 1 <= d.b * d.t) by (nonlinear_arith)
            requires
                0 <= bb < d.b,
                0 <= i < d.t,
                p == bb * d.t,
        ;
        let q = p + i + 1;
        let c = d.c as int;
        lemma_embedded(params, cfg, x1, x2, d.t as int, p, q);
        assert(0 <= p * c && q * c <= d.b * d.t * c) by (nonlinear_arith)
            requires
                0 <= p,
                q <= d.b * d.t,
                0 <= c,
        ;
        lemma_dropped(
            forward::embedded(params, cfg, x1, d.t as int),
            forward::embedded(params, cfg, x2, d.t as int),
            k1.emb_mask@,
            forward::emb_drop(cfg, training),
            p * c,
            q * c,
        );
    } else {
        lemma_activation(params, cfg, x1, x2, training, s1, s2, k1, k2, bb, i, l - 1);
        let n = l - 1;
        assert(k1.blocks@[n] == k1.blocks@[n]);
        assert(k2.blocks@[n] == k2.blocks@[n]);
        lemma_block(
            params,
            layout::block_r(layout::block_off(cfg, n as nat), cfg.n_embd as nat, cfg.bias),
            forward::activation(k1, n),
            forward::activation(k2, n),
            k1.blocks@[n]@,
            k2.blocks@[n]@,
            forward::activation(k1, l),
            forward::activation(k2, l),
            d,
            forward::block_drop(cfg, training),
            forward::state_at(s1, d, forward::block_drop::<T>(cfg, training), n as nat),
            forward::state_at(s2, d, forward::block_drop::<T>(cfg, training), n as nat),
            bb,
            i,
        );
    }
}

proof fn lemma_nt<T>(
    a: Seq<Term<T>>,
    b: Seq<Term<T>>,
    w: Seq<Term<T>>,
    rows: int,
    k: int,
    cols: int,
    p: int,
    q: int,
)
    requires
        0 <= p,
        q <= rows,
        0 <= rows,
        0 <= k,
        0 <= cols,
        agree(a, b, p * k, q * k),
    ensures
        ({
            let zero = layout::zeros::<T>((rows * cols) as nat);
            agree(
                ops::nt(zero, a, w, rows, k, cols),
                ops::nt(zero, b, w, rows, k, cols),
                p * cols,
                q * cols,
            )
        }),
{
    let zero = layout::zeros::<T>((rows * cols) as nat);
    let x = ops::nt(zero, a, w, rows, k, cols);
    let y = ops::nt(zero, b, w, rows, k, cols);
    assert(q * cols <= rows * cols && 0 <= rows * cols) by (nonlinear_arith)
        requires
            q <= rows,
            0 <= rows,
            0 <= cols,
    ;
    assert forall|z: int| p * cols <= z < q * cols implies #[trigger] x[z] == y[z] by {
        lemma_in_rows(z, p, q, cols);
        let m = z / cols;
        assert(p * k <= m * k && m * k + k <= q * k) by (nonlinear_arith)
            requires
                p <= m,
                m + 1 <= q,
                0 <= k,
        ;
        lemma_dot_left(a, b, w, m * k, (z % cols) * k, k as nat);
    }
}

proof fn lemma_dot_left<T>(
    a: Seq<Term<T>>,
    b: Seq<Term<T>>,
    w: Seq<Term<T>>,
    ai: int,
    wi: int,
    n: nat,
)
    requires
        agree(a, b, ai, ai + n),
    ensures
        ops::dot(a, w, ai, wi, n) == ops::dot(b, w, ai, wi, n),
    decreases n,
{
    if n > 0 {
        lemma_dot_left(a, b, w, ai, wi, (n - 1) as nat);
        assert(a[ai + n - 1] == b[ai + n - 1]);
    }
}

/// The logits that a pass leads to.
pub open spec fn logits<T: Scalar>(params: Seq<Term<T>>, cfg: GptConfig, n: nat, k: Cache<T>) -> Seq<
    Term<T>,
> {
    forward::logits_of(params, cfg, scalar::terms(k.lnf_out@), n as int)
}

/// With the same masks, the logits at a position depend only on the tokens of its sequence up
/// to it. Two passes whose tokens agree that far agree in the logits that far, whatever
/// follows, and whatever stands in the other sequences.
pub proof fn law_masked_predictions_are_causal<T: Scalar>(
    params: Seq<Term<T>>,
    cfg: GptConfig,
    x1: Seq<u32>,
    x2: Seq<u32>,
    training: bool,
    s1: rng::State,
    s2: rng::State,
    k1: Cache<T>,
    k2: Cache<T>,
    bb: int,
    i: int,
)
    requires
        forward::runnable(cfg, x1),
        forward::activations_done(params, cfg, x1, training, s1, k1),
        forward::activations_done(params, cfg, x2, training, s2, k2),
        same_masks(cfg, k1, k2),
        x1.len() == x2.len(),
        x1.len() <= usize::MAX,
        0 <= bb < cache::dims_of(cfg, x1.len()).b,
        0 <= i < cache::dims_of(cfg, x1.len()).t,
        agree(
            x1,
            x2,
            bb * cache::dims_of(cfg, x1.len()).t,
            bb * cache::dims_of(cfg, x1.len()).t + i + 1,
        ),
    ensures
        ({
            let t = cache::dims_of(cfg, x1.len()).t;
            agree(
                logits(params, cfg, x1.len(), k1),
                logits(params, cfg, x2.len(), k2),
                (bb * t) * cfg.vocab_size,
                (bb * t + i + 1) * cfg.vocab_size,
            )
        }),
{
    let d = cache::dims_of(cfg, x1.len());
    let m = x1.len() as int;
    let c = cfg.n_embd as int;
    let v = cfg.vocab_size as int;
    let p = bb * d.t;
    let q = p + i + 1;
    forward::lemma_dims(cfg, x1.len());
    assert(0 <= p && q <= m) by (nonlinear_arith)
        requires
            0 <= bb < d.b,
            0 <= i < d.t,
            p == bb * d.t,
            q == p + i + 1,
            m == d.b * d.t,
    ;
    lemma_activation(params, cfg, x1, x2, training, s1, s2, k1, k2, bb, i, cfg.n_layer as int);
    let end = layout::block_off(cfg, cfg.n_layer as nat);
    lemma_normalised(
        scalar::terms(k1.lnf_x@),
        scalar::terms(k2.lnf_x@),
        block::region(params, layout::r(end, c as nat)),
        block::opt_region(params, layout::opt_r(cfg.bias, end + c as nat, c as nat)),
        m,
        c,
        p,
        q,
    );
    lemma_nt(
        scalar::terms(k1.lnf_out@),
        scalar::terms(k2.lnf_out@),
        params.subrange(0, v * c),
        m,
        c,
        v,
        p,
        q,
    );
}

/// A pass without dropout has no masks.
proof fn lemma_no_masks<T: Scalar>(
    params: Seq<Term<T>>,
    cfg: GptConfig,
    x1: Seq<u32>,
    x2: Seq<u32>,
    s1: rng::State,
    s2: rng::State,
    k1: Cache<T>,
    k2: Cache<T>,
)
    requires
        forward::activations_done(params, cfg, x1, false, s1, k1),
        forward::activations_done(params, cfg, x2, false, s2, k2),
    ensures
        same_masks(cfg, k1, k2),
{
    assert(k1.emb_mask@ =~= k2.emb_mask@);
    assert forall|l: int| 0 <= l < cfg.n_layer implies same_block_masks(
        (#[trigger] k1.blocks@[l])@,
        (#[trigger] k2.blocks@[l])@,
    ) by {
        let a = k1.blocks@[l]@;
        let b = k2.blocks@[l]@;
        assert(a.att_mask =~= b.att_mask);
        assert(a.resid_mask =~= b.resid_mask);
        assert(a.mlp_mask =~= b.mlp_mask);
    }
    assert forall|l: int|
        #![trigger k1.blocks@[l]]
        #![trigger k2.blocks@[l]]
        0 <= l < cfg.n_layer implies same_block_masks(k1.blocks@[l]@, k2.blocks@[l]@) by {
        assert(same_block_masks((k1.blocks@[l])@, (k2.blocks@[l])@));
    }
}

/// Without dropout, the logits at a position depend only on the tokens of its sequence up to
/// it. Two passes whose tokens agree that far agree in the logits that far, whatever follows,
/// whatever stands in the other sequences, and wherever the generator was.
pub proof fn law_predictions_are_causal<T: Scalar>(
    params: Seq<Term<T>>,
    cfg: GptConfig,
    x1: Seq<u32>,
    x2: Seq<u32>,
    s1: rng::State,
    s2: rng::State,
    k1: Cache<T>,
    k2: Cache<T>,
    bb: int,
    i: int,
)
    requires
        forward::runnable(cfg, x1),
        forward::activations_done(params, cfg, x1, false, s1, k1),
        forward::activations_done(params, cfg, x2, false, s2, k2),
        x1.len() == x2.len(),
        x1.len() <= usize::MAX,
        0 <= bb < cache::dims_of(cfg, x1.len()).b,
        0 <= i < cache::dims_of(cfg, x1.len()).t,
        agree(
            x1,
            x2,
            bb * cache::dims_of(cfg, x1.len()).t,
            bb * cache::dims_of(cfg, x1.len()).t + i + 1,
        ),
    ensures
        ({
            let t = cache::dims_of(cfg, x1.len()).t;
            agree(
                logits(params, cfg, x1.len(), k1),
                logits(params, cfg, x2.len(), k2),
                (bb * t) * cfg.vocab_size,
                (bb * t + i + 1) * cfg.vocab_size,
            )
        }),
{
    lemma_no_masks(params, cfg, x1, x2, s1, s2, k1, k2);
    law_masked_predictions_are_causal(params, cfg, x1, x2, false, s1, s2, k1, k2, bb, i);
}

/// Parameters, tokens and masks settle the logits, in training as well: two passes over the
/// same tokens with the same masks lead to the same, whatever the buffers held before.
pub proof fn law_masks_settle_logits<T: Scalar>(
    params: Seq<Term<T>>,
    cfg: GptConfig,
    x: Seq<u32>,
    training: bool,
    s1: rng::State,
    s2: rng::State,
    k1: Cache<T>,
    k2: Cache<T>,
)
    requires
        forward::runnable(cfg, x),
        x.len() <= usize::MAX,
        forward::activations_done(params, cfg, x, training, s1, k1),
        forward::activations_done(params, cfg, x, training, s2, k2),
        same_masks(cfg, k1, k2),
    ensures
        logits(params, cfg, x.len(), k1) == logits(params, cfg, x.len(), k2),
{
    let d = cache::dims_of(cfg, x.len());
    let v = cfg.vocab_size as int;
    let a = logits(params, cfg, x.len(), k1);
    let b = logits(params, cfg, x.len(), k2);
    forward::lemma_dims(cfg, x.len());
    assert forall|z: int| 0 <= z < x.len() * v implies a[z] == b[z] by {
        attention::lemma_div_below(z, x.len() as int, v);
        let row = z / v;
        attention::lemma_div_below(row, d.b as int, d.t as int);
        let bb = row / d.t as int;
        let i = row % d.t as int;
        law_masked_predictions_are_causal(params, cfg, x, x, training, s1, s2, k1, k2, bb, i);
        let t = d.t as int;
        assert((bb * t) * v <= z < (bb * t + i + 1) * v) by (nonlinear_arith)
            requires
                row == bb * t + i,
                z == row * v + z % v,
                0 <= z % v < v,
                0 <= i,
        ;
    }
    assert(a =~= b);
}

/// Without dropout, the tokens settle the logits: two passes over the same tokens lead to
/// the same.
pub proof fn law_tokens_settle_logits<T: Scalar>(
    params: Seq<Term<T>>,
    cfg: GptConfig,
    x: Seq<u32>,
    s1: rng::State,
    s2: rng::State,
    k1: Cache<T>,
    k2: Cache<T>,
)
    requires
        forward::runnable(cfg, x),
        x.len() <= usize::MAX,
        forward::activations_done(params, cfg, x, false, s1, k1),
        forward::activations_done(params, cfg, x, false, s2, k2),
    ensures
        logits(params, cfg, x.len(), k1) == logits(params, cfg, x.len(), k2),
{
    lemma_no_masks(params, cfg, x, x, s1, s2, k1, k2);
    law_masks_settle_logits(params, cfg, x, false, s1, s2, k1, k2);
}

/// Parameters, tokens, targets and masks settle the loss.
pub proof fn law_masks_settle_loss<T: Scalar>(
    params: Seq<Term<T>>,
    cfg: GptConfig,
    x: Seq<u32>,
    y: Option<Seq<u32>>,
    training: bool,
    s1: rng::State,
    s2: rng::State,
    k1: Cache<T>,
    k2: Cache<T>,
    loss1: Term<T>,
    loss2: Term<T>,
)
    requires
        forward::runnable(cfg, x),
        x.len() <= usize::MAX,
        forward::forward_done(params, cfg, x, y, training, s1, k1, loss1),
        forward::forward_done(params, cfg, x, y, training, s2, k2, loss2),
        same_masks(cfg, k1, k2),
    ensures
        scalar::terms(k1.logits@) == scalar::terms(k2.logits@),
        loss1 == loss2,
{
    law_masks_settle_logits(params, cfg, x, training, s1, s2, k1, k2);
}

/// Whether a draw is at least `p` has one outcome only.
pub open spec fn decided<T: Scalar>(p: Term<T>) -> bool {
    forall|u: u32|
        !(#[trigger] scalar::may_be_at_least(Term::<T>::Bits(u), p, true)
            && scalar::may_be_at_least(Term::<T>::Bits(u), p, false))
}

/// The state of the generator settles a mask.
proof fn lemma_one_mask<T: Scalar>(
    a: Seq<u8>,
    b: Seq<u8>,
    n: nat,
    drop: DropTerms<T>,
    s: rng::State,
)
    requires
        block::mask_for(a, n, drop, s),
        block::mask_for(b, n, drop, s),
        drop.on ==> decided(drop.p),
    ensures
        a == b,
{
    assert forall|i: int| 0 <= i < a.len() implies a[i] == b[i] by {
        let u = rng::uniform_single(rng::advance_by(s, i as nat));
        assert(a[i] == 0 || a[i] == 1);
        assert(b[i] == 0 || b[i] == 1);
        if a[i] != b[i] {
            assert(scalar::may_be_at_least(Term::<T>::Bits(u), drop.p, true));
            assert(scalar::may_be_at_least(Term::<T>::Bits(u), drop.p, false));
        }
    }
    assert(a =~= b);
}

/// Where comparing a draw with the rates of the dropout has one outcome only, the state of the
/// generator settles the masks, and so a pass is settled by parameters, tokens, targets and
/// that state: two passes from the same state lead to the same logits and the same loss.
pub proof fn law_state_settles_pass<T: Scalar>(
    params: Seq<Term<T>>,
    cfg: GptConfig,
    x: Seq<u32>,
    y: Option<Seq<u32>>,
    training: bool,
    s: rng::State,
    k1: Cache<T>,
    k2: Cache<T>,
    loss1: Term<T>,
    loss2: Term<T>,
)
    requires
        forward::runnable(cfg, x),
        x.len() <= usize::MAX,
        forward::forward_done(params, cfg, x, y, training, s, k1, loss1),
        forward::forward_done(params, cfg, x, y, training, s, k2, loss2),
        forward::drops(cfg, training) ==> decided(forward::emb_drop::<T>(cfg, training).p),
        forward::drops(cfg, training) ==> decided(forward::block_drop::<T>(cfg, training).p),
    ensures
        same_masks(cfg, k1, k2),
        scalar::terms(k1.logits@) == scalar::terms(k2.logits@),
        loss1 == loss2,
{
    let d = cache::dims_of(cfg, x.len());
    lemma_one_mask(
        k1.emb_mask@,
        k2.emb_mask@,
        (x.len() * cfg.n_embd) as nat,
        forward::emb_drop::<T>(cfg, training),
        s,
    );
    assert forall|l: int|
        #![trigger k1.blocks@[l]]
        #![trigger k2.blocks@[l]]
        0 <= l < cfg.n_layer implies same_block_masks(k1.blocks@[l]@, k2.blocks@[l]@) by {
        let a = k1.blocks@[l]@;
        let b = k2.blocks@[l]@;
        let drop = forward::block_drop::<T>(cfg, training);
        let at = forward::state_at(s, d, drop, l as nat);
        let w = (d.b * d.nh * d.t * d.t) as nat;
        let mc = (d.b * d.t * d.c) as nat;
        let at2 = block::after_drop(at, w, drop);
        lemma_one_mask(a.att_mask, b.att_mask, w, drop, at);
        lemma_one_mask(a.resid_mask, b.resid_mask, mc, drop, at2);
        lemma_one_mask(a.mlp_mask, b.mlp_mask, mc, drop, block::after_drop(at2, mc, drop));
    }
    law_masks_settle_loss(params, cfg, x, y, training, s, s, k1, k2, loss1, loss2);
}

/// Where the operations on numbers have one outcome each, a pass is settled by parameters,
/// tokens, targets and the state of the generator, in training as well: whatever the buffers
/// held before, it leads to the same logits, the same loss and the same masks. The state that
/// it leaves the generator in is a function of the one that it found.
pub proof fn law_forward_is_settled<T: Scalar>(
    params: Seq<Term<T>>,
    cfg: GptConfig,
    x: Seq<u32>,
    y: Option<Seq<u32>>,
    training: bool,
    s: rng::State,
    k1: Cache<T>,
    k2: Cache<T>,
    loss1: Term<T>,
    loss2: Term<T>,
)
    requires
        settled::single_valued::<T>(),
        forward::runnable(cfg, x),
        x.len() <= usize::MAX,
        forward::forward_done(params, cfg, x, y, training, s, k1, loss1),
        forward::forward_done(params, cfg, x, y, training, s, k2, loss2),
    ensures
        same_masks(cfg, k1, k2),
        scalar::terms(k1.logits@) == scalar::terms(k2.logits@),
        loss1 == loss2,
{
    lemma_decided(forward::emb_drop::<T>(cfg, training).p);
    lemma_decided(forward::block_drop::<T>(cfg, training).p);
    law_state_settles_pass(params, cfg, x, y, training, s, k1, k2, loss1, loss2);
}

proof fn lemma_decided<T: Scalar>(p: Term<T>)
    requires
        settled::single_valued::<T>(),
    ensures
        decided(p),
{
    assert forall|u: u32|
        !(#[trigger] scalar::may_be_at_least(Term::<T>::Bits(u), p, true)
            && scalar::may_be_at_least(Term::<T>::Bits(u), p, false)) by {
        settled::law_comparisons_have_one_outcome(Term::<T>::Bits(u), p, true, false);
    }
}

/// Without dropout, tokens and targets settle the loss.
pub proof fn law_targets_settle_loss<T: Scalar>(
    params: Seq<Term<T>>,
    cfg: GptConfig,
    x: Seq<u32>,
    y: Seq<u32>,
    s1: rng::State,
    s2: rng::State,
    k1: Cache<T>,
    k2: Cache<T>,
    loss1: Term<T>,
    loss2: Term<T>,
)
    requires
        forward::runnable(cfg, x),
        x.len() <= usize::MAX,
        forward::forward_done(params, cfg, x, Some(y), false, s1, k1, loss1),
        forward::forward_done(params, cfg, x, Some(y), false, s2, k2, loss2),
    ensures
        loss1 == loss2,
{
    law_tokens_settle_logits(params, cfg, x, s1, s2, k1, k2);
}

} // verus!
