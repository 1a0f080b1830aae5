//! How the layers of a pass hang together, read in exact arithmetic.
use crate::attention::Dims;
use crate::block;
use crate::block::DropTerms;
use crate::cache::{BlockTerms, Cache};
use crate::exact;
use crate::exact::Exact;
use crate::forward;
use crate::layers;
use crate::layout;
use crate::layout::{BlockR, GptConfig, LayerR, R};
use crate::meaning;
use crate::ops;
use crate::rng;
use crate::scalar;
use crate::scalar::{Scalar, Term, Unary};
use vstd::prelude::*;

verus! {

/// The number at a place of a stretch that may not be there: zero where it is not.
pub open spec fn bias_at<T>(m: Exact<T>, params: Seq<Term<T>>, r: Option<R>, i: int) -> real {
    match r {
        Some(r) => m.value(params[r.off + i]),
        None => 0real,
    }
}

/// The product of row `r` of `x` with column `o` of the matrix of `k` rows that lies at `w`
/// among the parameters, plus the bias of that column.
pub open spec fn through<T>(
    m: Exact<T>,
    params: Seq<Term<T>>,
    x: Seq<Term<T>>,
    w: R,
    b: Option<R>,
    k: int,
    cols: int,
    r: int,
    o: int,
) -> real {
    exact::sum(
        k,
        |i: int| exact::times(m.value(x[r * k + i]), m.value(params[w.off + (i * cols + o)])),
    ) + bias_at(m, params, b, o)
}

proof fn lemma_through<T>(
    m: Exact<T>,
    params: Seq<Term<T>>,
    x: Seq<Term<T>>,
    w: R,
    b: Option<R>,
    rows: int,
    k: int,
    cols: int,
    r: int,
    o: int,
)
    requires
        m.ok(),
        0 <= r < rows,
        0 <= o < cols,
        0 <= k,
        w.len == k * cols,
        block::within(w, params.len() as int),
        b matches Some(b) ==> block::within(b, params.len() as int) && b.len == cols,
    ensures
        ({
            let y = block::linear(
                x,
                block::region(params, w),
                block::opt_region(params, b),
                rows,
                k,
                cols,
            );
            &&& y.len() == rows * cols
            &&& 0 <= r * cols + o < rows * cols
            &&& m.value(y[r * cols + o]) == through(m, params, x, w, b, k, cols, r, o)
        }),
{
    let wt = block::region(params, w);
    let bt = block::opt_region(params, b);
    meaning::law_linear_is_matrix_product(m, x, wt, bt, rows, k, cols, r, o);
    ops::lemma_row_end(r, rows, cols);
    let f = |i: int| exact::times(m.value(x[r * k + i]), m.value(wt[i * cols + o]));
    let g = |i: int|
        exact::times(m.value(x[r * k + i]), m.value(params[w.off + (i * cols + o)]));
    assert forall|i: int| 0 <= i < k implies #[trigger] f(i) == g(i) by {
        ops::lemma_row_end(i, k, cols);
        assert(wt[i * cols + o] == params[w.off + (i * cols + o)]);
    }
    exact::lemma_same(k, f, g);
}

/// The matrices of a block: queries, keys and values come from the first normalisation, the
/// numbers that GELU takes from the second.
pub proof fn law_block_products<T: Scalar>(
    m: Exact<T>,
    params: Seq<Term<T>>,
    bo: BlockR,
    src: Seq<Term<T>>,
    k: BlockTerms<T>,
    dst: Seq<Term<T>>,
    d: Dims,
    drop: DropTerms<T>,
    s: rng::State,
    r: int,
    o: int,
)
    requires
        m.ok(),
        block::block_done(params, bo, src, k, dst, d, drop, s),
        block::block_fits(bo, d.c as int, params.len() as int),
        0 <= r < d.b * d.t,
        0 <= o,
    ensures
        o < 3 * d.c ==> m.value(k.qkv[r * (3 * d.c) + o]) == through(
            m,
            params,
            k.ln1_out,
            bo.attn_w,
            bo.attn_b,
            d.c as int,
            3 * d.c,
            r,
            o,
        ),
        o < 4 * d.c ==> m.value(k.fc_out[r * (4 * d.c) + o]) == through(
            m,
            params,
            k.ln2_out,
            bo.fc_w,
            bo.fc_b,
            d.c as int,
            4 * d.c,
            r,
            o,
        ),
{
    let c = d.c as int;
    let rows = d.b * d.t;
    if o < 3 * c {
        lemma_through(m, params, k.ln1_out, bo.attn_w, bo.attn_b, rows, c, 3 * c, r, o);
    }
    if o < 4 * c {
        lemma_through(m, params, k.ln2_out, bo.fc_w, bo.fc_b, rows, c, 4 * c, r, o);
    }
}

/// The branches of a block, before dropout: the output of attention and that of GELU, each
/// through its projection.
pub proof fn law_block_projections<T: Scalar>(
    m: Exact<T>,
    params: Seq<Term<T>>,
    bo: BlockR,
    k: BlockTerms<T>,
    d: Dims,
    r: int,
    o: int,
)
    requires
        m.ok(),
        block::block_fits(bo, d.c as int, params.len() as int),
        0 <= r < d.b * d.t,
        0 <= o < d.c,
    ensures
        ({
            let c = d.c as int;
            let rows = d.b * d.t;
            let attended = block::linear(
                k.attn_out,
                block::region(params, bo.proj_w),
                block::opt_region(params, bo.proj_b),
                rows,
                c,
                c,
            );
            let fed = block::linear(
                k.gelu_out,
                block::region(params, bo.mlp_w),
                block::opt_region(params, bo.mlp_b),
                rows,
                4 * c,
                c,
            );
            &&& m.value(attended[r * c + o]) == through(
                m,
                params,
                k.attn_out,
                bo.proj_w,
                bo.proj_b,
                c,
                c,
                r,
                o,
            )
            &&& m.value(fed[r * c + o]) == through(
                m,
                params,
                k.gelu_out,
                bo.mlp_w,
                bo.mlp_b,
                4 * c,
                c,
                r,
                o,
            )
        }),
{
    let c = d.c as int;
    let rows = d.b * d.t;
    lemma_through(m, params, k.attn_out, bo.proj_w, bo.proj_b, rows, c, c, r, o);
    lemma_through(m, params, k.gelu_out, bo.mlp_w, bo.mlp_b, rows, 4 * c, c, r, o);
}

/// `mu` and `dev` are the mean of row `r` of `x` and the root of its variance plus 1e-5.
pub open spec fn statistics<T>(
    m: Exact<T>,
    x: Seq<Term<T>>,
    c: int,
    r: int,
    mu: real,
    dev: real,
) -> bool {
    &&& dev > 0real
    &&& exact::times(mu, c as real) == exact::sum(c, |i: int| m.value(x[r * c + i]))
    &&& exact::times(exact::times(dev, dev) - 1real / 100000real, c as real) == exact::sum(
        c,
        |i: int| exact::times(m.value(x[r * c + i]) - mu, m.value(x[r * c + i]) - mu),
    )
}

/// Place `e` of row `r` of `y` is that of `x` normalised with the parameters at `ln`.
pub open spec fn normalises<T>(
    m: Exact<T>,
    params: Seq<Term<T>>,
    x: Seq<Term<T>>,
    y: Seq<Term<T>>,
    ln: LayerR,
    c: int,
    r: int,
    e: int,
    mu: real,
    dev: real,
) -> bool {
    exact::times(m.value(y[r * c + e]) - bias_at(m, params, ln.b, e), dev) == exact::times(
        m.value(x[r * c + e]) - mu,
        m.value(params[ln.g.off + e]),
    )
}

proof fn lemma_normalises<T>(
    m: Exact<T>,
    params: Seq<Term<T>>,
    x: Seq<Term<T>>,
    ln: LayerR,
    rows: int,
    c: int,
    r: int,
    e: int,
    mu: real,
    dev: real,
)
    requires
        m.ok(),
        100000real * (m.bits)(0x3727_c5ac) == 1real,
        1 <= c <= usize::MAX,
        x.len() == rows * c,
        0 <= r < rows,
        0 <= e < c,
        block::within(ln.g, params.len() as int) && ln.g.len == c,
        ln.b matches Some(b) ==> block::within(b, params.len() as int) && b.len == c,
        statistics(m, x, c, r, mu, dev),
    ensures
        normalises(
            m,
            params,
            x,
            layers::normalised(
                x,
                block::region(params, ln.g),
                block::opt_region(params, ln.b),
                rows,
                c,
            ),
            ln,
            c,
            r,
            e,
            mu,
            dev,
        ),
{
    let var = exact::times(dev, dev) - 1real / 100000real;
    meaning::law_normalised_rows(
        m,
        x,
        block::region(params, ln.g),
        block::opt_region(params, ln.b),
        rows,
        c,
        r,
        e,
        mu,
        var,
        dev,
    );
    assert(block::region(params, ln.g)[e] == params[ln.g.off + e]);
}

/// The normalisations of a block: the first takes the input of the block, the second what
/// attention has left of it.
pub proof fn law_block_normalises<T: Scalar>(
    m: Exact<T>,
    params: Seq<Term<T>>,
    bo: BlockR,
    src: Seq<Term<T>>,
    k: BlockTerms<T>,
    dst: Seq<Term<T>>,
    d: Dims,
    drop: DropTerms<T>,
    s: rng::State,
    r: int,
    e: int,
    mu: real,
    dev: real,
)
    requires
        m.ok(),
        100000real * (m.bits)(0x3727_c5ac) == 1real,
        block::block_done(params, bo, src, k, dst, d, drop, s),
        block::block_fits(bo, d.c as int, params.len() as int),
        src.len() == d.b * d.t * d.c,
        k.x2.len() == d.b * d.t * d.c,
        0 <= r < d.b * d.t,
        0 <= e < d.c,
    ensures
        statistics(m, src, d.c as int, r, mu, dev) ==> normalises(
            m,
            params,
            src,
            k.ln1_out,
            bo.ln1,
            d.c as int,
            r,
            e,
            mu,
            dev,
        ),
        statistics(m, k.x2, d.c as int, r, mu, dev) ==> normalises(
            m,
            params,
            k.x2,
            k.ln2_out,
            bo.ln2,
            d.c as int,
            r,
            e,
            mu,
            dev,
        ),
{
    let c = d.c as int;
    let rows = d.b * d.t;
    if statistics(m, src, c, r, mu, dev) {
        lemma_normalises(m, params, src, bo.ln1, rows, c, r, e, mu, dev);
    }
    if statistics(m, k.x2, c, r, mu, dev) {
        lemma_normalises(m, params, k.x2, bo.ln2, rows, c, r, e, mu, dev);
    }
}

/// GELU in a block takes every number of its first matrix.
pub proof fn law_block_gelu<T: Scalar>(
    m: Exact<T>,
    params: Seq<Term<T>>,
    bo: BlockR,
    src: Seq<Term<T>>,
    k: BlockTerms<T>,
    dst: Seq<Term<T>>,
    d: Dims,
    drop: DropTerms<T>,
    s: rng::State,
    i: int,
    root: real,
)
    requires
        m.ok(),
        2real * (m.bits)(0x3f00_0000) == 1real,
        1000000real * (m.bits)(0x3d37_2713) == 44715real,
        (m.bits)(0x3f4c_422a) == root,
        root > 0real,
        exact::times(exact::times(root, root), m.pi()) == 2real,
        block::block_done(params, bo, src, k, dst, d, drop, s),
        0 <= i < k.fc_out.len(),
    ensures
        k.gelu_out.len() == k.fc_out.len(),
        ({
            let v = m.value(k.fc_out[i]);
            let cube = exact::times(exact::times(v, v), v);
            let inner = exact::times(root, v + exact::times(44715real / 1000000real, cube));
            2real * m.value(k.gelu_out[i]) == exact::times(
                v,
                1real + (m.image)(Unary::Tanh, inner),
            )
        }),
{
    meaning::law_gelu(m, k.fc_out[i], root);
}

/// Attention in a block: the weights with which a position attends come from the queries and
/// keys of the block, and without dropout the output is the values, weighted.
pub proof fn law_block_attends<T: Scalar>(
    m: Exact<T>,
    params: Seq<Term<T>>,
    bo: BlockR,
    src: Seq<Term<T>>,
    k: BlockTerms<T>,
    dst: Seq<Term<T>>,
    d: Dims,
    drop: DropTerms<T>,
    s: rng::State,
    bb: int,
    i: int,
    h: int,
    e: int,
    root: real,
    score: spec_fn(int) -> real,
)
    requires
        m.ok(),
        m.takes_exponentials(),
        d.ok(),
        block::block_done(params, bo, src, k, dst, d, drop, s),
        0 <= bb < d.b,
        0 <= i < d.t,
        0 <= h < d.nh,
        0 <= e < d.hs,
        root > 0real,
        exact::times(root, root) == d.hs as real,
        forall|j: int|
            0 <= j <= i ==> exact::times(#[trigger] score(j), root) == exact::sum(
                d.hs as int,
                |x: int|
                    exact::times(
                        m.value(k.qkv[d.at(bb, i, 0, h) + x]),
                        m.value(k.qkv[d.at(bb, j, 1, h) + x]),
                    ),
            ),
    ensures
        exact::sum(i + 1, |j: int| m.value(k.att[d.weight_row(bb, i, h) + j])) == 1real,
        forall|j: int, l: int|
            #![trigger k.att[d.weight_row(bb, i, h) + j], k.att[d.weight_row(bb, i, h) + l]]
            0 <= j <= i && 0 <= l <= i ==> m.value(k.att[d.weight_row(bb, i, h) + j])
                == exact::times(
                m.value(k.att[d.weight_row(bb, i, h) + l]),
                (m.image)(Unary::Exp, score(j) - score(l)),
            ),
        !drop.on ==> m.value(k.attn_out[d.out(bb, i, h) + e]) == exact::sum(
            i + 1,
            |j: int|
                exact::times(
                    m.value(k.att[d.weight_row(bb, i, h) + j]),
                    m.value(k.qkv[d.at(bb, j, 2, h) + e]),
                ),
        ),
{
    let (a, b) = (d.nh as int, d.hs as int);
    assert(d.c >= 1) by {
        assert(a * b >= 1) by (nonlinear_arith)
            requires
                a >= 1,
                b >= 1,
        ;
    }
    meaning::law_attention_weights(m, k.att, k.qkv, d, bb, i, h, root, score);
    meaning::law_attention_output(m, k.att, k.att_mask, drop.scale, k.qkv, d, bb, i, h, e);
    if !drop.on {
        let base = d.weight_row(bb, i, h);
        let f = |j: int|
            exact::times(
                if k.att_mask.len() == 0 {
                    m.value(k.att[base + j])
                } else {
                    exact::times(
                        m.value(k.att[base + j]),
                        exact::times(k.att_mask[base + j] as real, m.value(drop.scale)),
                    )
                },
                m.value(k.qkv[d.at(bb, j, 2, h) + e]),
            );
        let g = |j: int|
            exact::times(m.value(k.att[base + j]), m.value(k.qkv[d.at(bb, j, 2, h) + e]));
        exact::lemma_same(i + 1, f, g);
    }
}

/// The end of a pass: the last activations are normalised with the last parameters, and the
/// logits are their products with the embeddings of the tokens.
pub proof fn law_head_of_pass<T: Scalar>(
    m: Exact<T>,
    params: Seq<Term<T>>,
    cfg: GptConfig,
    tokens: Seq<u32>,
    targets: Option<Seq<u32>>,
    training: bool,
    s: rng::State,
    k: Cache<T>,
    loss: Term<T>,
    r: int,
    e: int,
    o: int,
    mu: real,
    dev: real,
)
    requires
        m.ok(),
        100000real * (m.bits)(0x3727_c5ac) == 1real,
        forward::forward_done(params, cfg, tokens, targets, training, s, k, loss),
        params.len() == layout::total_len(cfg),
        params.len() <= usize::MAX,
        0 <= r < tokens.len(),
        0 <= e < cfg.n_embd,
        0 <= o < cfg.vocab_size,
        statistics(m, scalar::terms(k.lnf_x@), cfg.n_embd as int, r, mu, dev),
    ensures
        ({
            let c = cfg.n_embd as nat;
            let end = layout::block_off(cfg, cfg.n_layer as nat);
            let ln = LayerR { g: layout::r(end, c), b: layout::opt_r(cfg.bias, end + c, c) };
            &&& normalises(
                m,
                params,
                scalar::terms(k.lnf_x@),
                scalar::terms(k.lnf_out@),
                ln,
                c as int,
                r,
                e,
                mu,
                dev,
            )
            &&& m.value(k.logits@[r * cfg.vocab_size + o]@) == exact::sum(
                c as int,
                |i: int|
                    exact::times(
                        m.value(scalar::terms(k.lnf_out@)[r * cfg.n_embd + i]),
                        m.value(params[o * cfg.n_embd + i]),
                    ),
            )
        }),
{
    let c = cfg.n_embd as int;
    let v = cfg.vocab_size as int;
    let n = tokens.len() as int;
    let end = layout::block_off(cfg, cfg.n_layer as nat);
    let ln = LayerR {
        g: layout::r(end, c as nat),
        b: layout::opt_r(cfg.bias, end + c as nat, c as nat),
    };
    let x = scalar::terms(k.lnf_x@);
    let bl = layout::block_len(c as nat, cfg.bias);
    let (layers_n, vocab, block) = (cfg.n_layer as int, v, cfg.block_size as int);
    let bli = bl as int;
    assert(layers_n * bli >= 0 && block * c >= 0 && vocab * c >= 0) by (nonlinear_arith)
        requires
            layers_n >= 0,
            bli >= 0,
            block >= 0,
            vocab >= 0,
            c >= 0,
    ;
    assert(x.len() == n * c);
    lemma_normalises(m, params, x, ln, n, c, r, e, mu, dev);
    meaning::law_logits_are_products_with_embeddings(
        m,
        params,
        cfg,
        scalar::terms(k.lnf_out@),
        n,
        r,
        o,
    );
    ops::lemma_row_end(r, n, v);
    assert(scalar::terms(k.logits@)[r * v + o] == k.logits@[r * v + o]@);
}

/// The probabilities of a pass: in each row they are positive, add up to one, and each is
/// `exp(a - b)` times another, where `a` and `b` are their logits.
pub proof fn law_probabilities_of_pass<T: Scalar>(
    m: Exact<T>,
    params: Seq<Term<T>>,
    cfg: GptConfig,
    tokens: Seq<u32>,
    targets: Seq<u32>,
    training: bool,
    s: rng::State,
    k: Cache<T>,
    loss: Term<T>,
    r: int,
    o: int,
    other: int,
)
    requires
        m.ok(),
        m.takes_exponentials(),
        forward::forward_done(params, cfg, tokens, Some(targets), training, s, k, loss),
        0 <= r < tokens.len(),
        0 <= o < cfg.vocab_size,
        0 <= other < cfg.vocab_size,
    ensures
        m.value(k.probs@[r * cfg.vocab_size + o]@) > 0real,
        exact::sum(
            cfg.vocab_size as int,
            |i: int| m.value(k.probs@[r * cfg.vocab_size + i]@),
        ) == 1real,
        m.value(k.probs@[r * cfg.vocab_size + o]@) == exact::times(
            m.value(k.probs@[r * cfg.vocab_size + other]@),
            (m.image)(
                Unary::Exp,
                m.value(k.logits@[r * cfg.vocab_size + o]@) - m.value(
                    k.logits@[r * cfg.vocab_size + other]@,
                ),
            ),
        ),
{
    let v = cfg.vocab_size as int;
    let n = tokens.len() as int;
    let logits = scalar::terms(k.logits@);
    let probs = scalar::terms(k.probs@);
    ops::lemma_row_end(r, n, v);
    let row = layers::row(logits, r, v);
    assert(logits.len() == n * v);
    assert(probs == forward::softmax_rows(logits, n, v));
    assert(probs.len() == n * v);
    meaning::law_softmax_shares_by_exponentials(m, row);
    let p = ops::softmax(row);
    assert forall|i: int| 0 <= i < v implies k.probs@[r * v + i]@ == #[trigger] p[i] && row[i]
        == k.logits@[r * v + i]@ by {
        ops::lemma_cell(r, v, i);
        assert(probs[r * v + i] == k.probs@[r * v + i]@);
        assert(logits[r * v + i] == k.logits@[r * v + i]@);
    }
    let f = |i: int| m.value(p[i]);
    let g = |i: int| m.value(k.probs@[r * v + i]@);
    assert forall|i: int| 0 <= i < v implies #[trigger] f(i) == g(i) by {
        assert(k.probs@[r * v + i]@ == p[i]);
    }
    exact::lemma_same(v, f, g);
    assert(k.probs@[r * v + o]@ == p[o]);
    assert(k.probs@[r * v + other]@ == p[other]);
}

/// The loss of a pass, times the number of targets, is the sum over these of minus the
/// logarithm of their probabilities.
pub proof fn law_loss_of_pass<T: Scalar>(
    m: Exact<T>,
    params: Seq<Term<T>>,
    cfg: GptConfig,
    tokens: Seq<u32>,
    targets: Seq<u32>,
    training: bool,
    s: rng::State,
    k: Cache<T>,
    loss: Term<T>,
)
    requires
        m.ok(),
        forward::forward_done(params, cfg, tokens, Some(targets), training, s, k, loss),
        forward::are_targets(cfg, tokens, targets),
        1 <= tokens.len() <= usize::MAX,
    ensures
        exact::times(m.value(loss), tokens.len() as real) == exact::sum(
            tokens.len() as int,
            |i: int|
                -meaning::log_of(m, m.value(k.probs@[i * cfg.vocab_size + targets[i]]@)),
        ),
{
    let v = cfg.vocab_size as int;
    let n = tokens.len();
    let probs = scalar::terms(k.probs@);
    meaning::law_loss_is_mean_of_logarithms(m, probs, targets, v, n);
    let f = |i: int| -meaning::log_of(m, m.value(probs[i * v + targets[i]]));
    let g = |i: int| -meaning::log_of(m, m.value(k.probs@[i * v + targets[i]]@));
    assert(probs.len() == n * v);
    assert forall|i: int| 0 <= i < n implies #[trigger] f(i) == g(i) by {
        assert(targets[i] < cfg.vocab_size);
        ops::lemma_row_end(i, n as int, v);
    }
    exact::lemma_same(n as int, f, g);
}

} // verus!
