//! What the layers of the model compute, read in exact arithmetic.
use crate::adjoint;
use crate::attention;
use crate::attention::Dims;
use crate::attention_slopes;
use crate::block;
use crate::cache;
use crate::causal;
use crate::exact;
use crate::exact::Exact;
use crate::forward;
use crate::layers;
use crate::layout;
use crate::layout::GptConfig;
use crate::loss_slopes;
use crate::norm_slopes;
use crate::ops;
use crate::scalar;
use crate::scalar::{Binary, Term, Unary};
use vstd::prelude::*;

verus! {

/// A softmax shares out one: every share is positive, they add up to one, and each is
/// `exp(a - b)` times another, where `a` and `b` are their numbers.
pub proof fn law_softmax_shares_by_exponentials<T>(m: Exact<T>, x: Seq<Term<T>>)
    requires
        m.ok(),
        m.takes_exponentials(),
        x.len() >= 1,
    ensures
        ops::softmax(x).len() == x.len(),
        forall|i: int| 0 <= i < x.len() ==> m.value(#[trigger] ops::softmax(x)[i]) > 0real,
        exact::sum(x.len() as int, |i: int| m.value(ops::softmax(x)[i])) == 1real,
        forall|i: int, j: int|
            #![trigger ops::softmax(x)[i], ops::softmax(x)[j]]
            0 <= i < x.len() && 0 <= j < x.len() ==> m.value(ops::softmax(x)[i]) == exact::times(
                m.value(ops::softmax(x)[j]),
                (m.image)(Unary::Exp, m.value(x[i]) - m.value(x[j])),
            ),
{
    let n = x.len() as int;
    let p = ops::softmax(x);
    let e = ops::exponentials(x);
    let big = ops::largest(x, x.len());
    let total = ops::total(e, e.len());
    let one = scalar::one::<T>();
    let inverse = scalar::quotient(one, total);
    let ev = |i: int| m.value(e[i]);
    let pv = |i: int| m.value(p[i]);
    let inv = m.value(inverse);
    assert(m.value(one) == 1real);
    assert forall|i: int| 0 <= i < n implies {
        &&& #[trigger] ev(i) == (m.image)(Unary::Exp, m.value(x[i]) - m.value(big))
        &&& ev(i) > 0real
    } by {
        let diff = scalar::difference(x[i], big);
        assert(m.value(diff) == m.value(x[i]) - m.value(big));
        assert(e[i] == scalar::apply1(Unary::Exp, diff));
    }
    norm_slopes::lemma_total(m, e, e.len());
    exact::lemma_same(n, |i: int| m.value(e[i]), ev);
    loss_slopes::lemma_positive(n, ev);
    let t = m.value(total);
    exact::lemma_divides(1real, t);
    assert(exact::times(inv, t) == 1real);
    exact::lemma_units(t);
    exact::lemma_orders(inv, 0real, t);
    assert(inv > 0real);
    assert forall|i: int| 0 <= i < n implies {
        &&& #[trigger] pv(i) == exact::times(inv, ev(i))
        &&& pv(i) > 0real
    } by {
        assert(p[i] == scalar::product(e[i], inverse));
        exact::lemma_commutes(ev(i), inv);
        exact::lemma_orders(0real, inv, ev(i));
        exact::lemma_units(ev(i));
    }
    exact::lemma_scaled(n, inv, ev, pv);
    exact::lemma_same(n, |i: int| m.value(p[i]), pv);
    assert forall|i: int, j: int|
        #![trigger p[i], p[j]]
        0 <= i < n && 0 <= j < n implies m.value(p[i]) == exact::times(
        m.value(p[j]),
        (m.image)(Unary::Exp, m.value(x[i]) - m.value(x[j])),
    ) by {
        let d = (m.image)(Unary::Exp, m.value(x[i]) - m.value(x[j]));
        assert(pv(i) == exact::times(inv, ev(i)));
        assert(pv(j) == exact::times(inv, ev(j)));
        exact::lemma_associates(inv, ev(j), d);
        assert(exact::times(ev(j), d) == ev(i)) by {
            let (a, b) = (m.value(x[j]) - m.value(big), m.value(x[i]) - m.value(x[j]));
            assert(exact::times((m.image)(Unary::Exp, a), (m.image)(Unary::Exp, b)) == (m.image)(
                Unary::Exp,
                a + b,
            ));
            assert(a + b == m.value(x[i]) - m.value(big));
        }
    }
    assert forall|i: int| 0 <= i < x.len() implies m.value(#[trigger] p[i]) > 0real by {
        assert(pv(i) > 0real);
    }
}

/// What a softmax subtracts before it takes exponentials is the largest of the numbers, so
/// that no exponent is above zero and one of them is zero.
pub proof fn law_largest_is_largest<T>(m: Exact<T>, x: Seq<Term<T>>, n: nat)
    requires
        1 <= n <= x.len(),
        forall|i: int| 0 <= i < n ==> (m.bits)(0xff80_0000) <= m.value(#[trigger] x[i]),
    ensures
        forall|i: int| 0 <= i < n ==> m.value(#[trigger] x[i]) <= m.value(ops::largest(x, n)),
        exists|i: int|
            0 <= i < n && m.value(#[trigger] x[i]) == m.value(ops::largest(x, n)),
    decreases n,
{
    let before = ops::largest(x, (n - 1) as nat);
    let last = ops::largest(x, n);
    assert(last == scalar::larger(before, x[n - 1]));
    if n > 1 {
        law_largest_is_largest(m, x, (n - 1) as nat);
        let k = choose|i: int| 0 <= i < n - 1 && m.value(#[trigger] x[i]) == m.value(before);
        if m.value(before) < m.value(x[n - 1]) {
            assert(m.value(x[n - 1]) == m.value(last));
        } else {
            assert(m.value(x[k]) == m.value(last));
        }
    } else {
        assert(before == Term::<T>::Bits(0xff80_0000));
        assert(m.value(before) <= m.value(x[0]));
        assert(m.value(x[0]) == m.value(last));
    }
}

/// The exponentials that a softmax shares out are at most one, and one of them is one: none is
/// out of range, however large the numbers are.
pub proof fn law_largest_exponential_is_one<T>(m: Exact<T>, x: Seq<Term<T>>)
    requires
        m.takes_exponentials(),
        x.len() >= 1,
        forall|i: int| 0 <= i < x.len() ==> (m.bits)(0xff80_0000) <= m.value(#[trigger] x[i]),
    ensures
        ops::exponentials(x).len() == x.len(),
        forall|i: int|
            0 <= i < x.len() ==> m.value(#[trigger] ops::exponentials(x)[i]) <= 1real,
        exists|i: int|
            0 <= i < x.len() && m.value(#[trigger] ops::exponentials(x)[i]) == 1real,
{
    let big = ops::largest(x, x.len());
    let e = ops::exponentials(x);
    law_largest_is_largest(m, x, x.len());
    let one = (m.image)(Unary::Exp, 0real);
    assert(exact::times(one, one) == (m.image)(Unary::Exp, 0real + 0real));
    exact::lemma_units(one);
    exact::lemma_cancels(one, 1real, one);
    assert forall|i: int| 0 <= i < x.len() implies m.value(#[trigger] e[i]) == (m.image)(
        Unary::Exp,
        m.value(x[i]) - m.value(big),
    ) && m.value(e[i]) <= 1real by {
        let diff = scalar::difference(x[i], big);
        assert(m.value(diff) == m.value(x[i]) - m.value(big));
        assert(e[i] == scalar::apply1(Unary::Exp, diff));
        assert(m.value(x[i]) <= m.value(big));
        if m.value(x[i]) < m.value(big) {
            assert((m.image)(Unary::Exp, m.value(x[i]) - m.value(big)) < one);
        } else {
            assert(m.value(x[i]) - m.value(big) == 0real);
        }
    }
    let k = choose|i: int| 0 <= i < x.len() && m.value(#[trigger] x[i]) == m.value(big);
    assert(m.value(x[k]) - m.value(big) == 0real);
    assert(m.value(e[k]) == 1real);
}

/// Tokens that one block can hold are one sequence; more are sequences of the block's length.
/// The heads share the width of the model evenly.
pub proof fn law_sequences_fill_blocks(cfg: GptConfig, n: nat)
    requires
        1 <= n <= usize::MAX,
        cfg.block_size >= 1,
        cfg.n_head >= 1,
        cfg.n_embd % cfg.n_head == 0,
        n > cfg.block_size ==> n % (cfg.block_size as nat) == 0,
    ensures
        ({
            let d = cache::dims_of(cfg, n);
            &&& n <= cfg.block_size ==> d.t == n && d.b == 1
            &&& n > cfg.block_size ==> d.t == cfg.block_size
            &&& d.b * d.t == n
            &&& d.c == cfg.n_embd
            &&& d.nh == cfg.n_head
            &&& d.nh * d.hs == d.c
        }),
{
    let t = cfg.block_size as int;
    let (c, h) = (cfg.n_embd as int, cfg.n_head as int);
    vstd::arithmetic::div_mod::lemma_fundamental_div_mod(c, h);
    if n > cfg.block_size {
        vstd::arithmetic::div_mod::lemma_fundamental_div_mod(n as int, t);
        assert((n as int / t) * t == t * (n as int / t)) by (nonlinear_arith);
        vstd::arithmetic::div_mod::lemma_div_is_ordered_by_denominator(n as int, 1, t);
    } else {
        vstd::arithmetic::div_mod::lemma_fundamental_div_mod(n as int, n as int);
        vstd::arithmetic::div_mod::lemma_div_by_self(n as int);
        if n == cfg.block_size {
            assert(n / (cfg.block_size as nat) == 1);
        }
    }
    vstd::arithmetic::div_mod::lemma_div_is_ordered_by_denominator(c, 1, h);
}

/// A linear layer: the number in row `r` and column `o` is the sum of the products of row `r`
/// of the input and column `o` of the weights, and the bias of that column where there is one.
pub proof fn law_linear_is_matrix_product<T>(
    m: Exact<T>,
    x: Seq<Term<T>>,
    w: Seq<Term<T>>,
    b: Option<Seq<Term<T>>>,
    rows: int,
    k: int,
    cols: int,
    r: int,
    o: int,
)
    requires
        m.ok(),
        0 <= r < rows,
        0 <= o < cols,
        0 <= k,
    ensures
        block::linear(x, w, b, rows, k, cols).len() == rows * cols,
        r * cols + o < rows * cols,
        m.value(block::linear(x, w, b, rows, k, cols)[r * cols + o]) == exact::sum(
            k,
            |i: int| exact::times(m.value(x[r * k + i]), m.value(w[i * cols + o])),
        ) + (match b {
            Some(b) => m.value(b[o]),
            None => 0real,
        }),
{
    ops::lemma_row_end(r, rows, cols);
    ops::lemma_cell(r, cols, o);
    let zeros = layout::zeros::<T>((rows * cols) as nat);
    let y = ops::nn(zeros, x, w, rows, k, cols);
    let at = r * cols + o;
    assert(zeros[at] == scalar::zero::<T>());
    assert(m.value(zeros[at]) == 0real);
    adjoint::lemma_nn_entry(m, zeros[at], x, w, r, o, k, cols, k as nat);
    assert(y[at] == ops::nn_entry(zeros[at], x, w, r, o, k, cols, k as nat));
}

/// Layer normalisation, row by row: with the mean `mu` and the variance `var` of the row, the
/// number is its distance to the mean over the root of `var + 1e-5`, times the scale of its
/// column, plus the bias of its column where there is one.
pub proof fn law_normalised_rows<T>(
    m: Exact<T>,
    x: Seq<Term<T>>,
    g: Seq<Term<T>>,
    bias: Option<Seq<Term<T>>>,
    rows: int,
    c: int,
    r: int,
    e: int,
    mu: real,
    var: real,
    dev: real,
)
    requires
        m.ok(),
        100000real * (m.bits)(0x3727_c5ac) == 1real,
        1 <= c <= usize::MAX,
        x.len() == rows * c,
        0 <= r < rows,
        0 <= e < c,
        exact::times(mu, c as real) == exact::sum(c, |i: int| m.value(x[r * c + i])),
        exact::times(var, c as real) == exact::sum(
            c,
            |i: int| exact::times(m.value(x[r * c + i]) - mu, m.value(x[r * c + i]) - mu),
        ),
        dev > 0real,
        exact::times(dev, dev) == var + 1real / 100000real,
    ensures
        layers::normalised(x, g, bias, rows, c).len() == rows * c,
        exact::times(
            m.value(layers::normalised(x, g, bias, rows, c)[r * c + e]) - (match bias {
                Some(b) => m.value(b[e]),
                None => 0real,
            }),
            dev,
        ) == exact::times(m.value(x[r * c + e]) - mu, m.value(g[e])),
{
    ops::lemma_row_end(r, rows, c);
    ops::lemma_cell(r, c, e);
    let at = r * c + e;
    let n = c as usize;
    let nr = c as real;
    let xr = layers::row(x, r, c);
    let mean = layers::mean(xr);
    let variance = layers::variance(xr);
    let rs = layers::rstd(xr);
    assert(xr.len() == c);
    assert forall|i: int| 0 <= i < c implies #[trigger] xr[i] == x[r * c + i] by {}
    // The mean.
    let total = ops::total(xr, xr.len());
    norm_slopes::lemma_total(m, xr, xr.len());
    norm_slopes::lemma_over_count(m, total, n);
    exact::lemma_same(c, |i: int| m.value(xr[i]), |i: int| m.value(x[r * c + i]));
    exact::lemma_cancels(m.value(mean), mu, nr);
    // The variance.
    let devs = layers::deviations(xr, mean, xr.len());
    norm_slopes::lemma_deviations(m, xr, mean, xr.len());
    norm_slopes::lemma_over_count(m, devs, n);
    exact::lemma_same(
        c,
        |d: int| exact::times(m.value(xr[d]) - m.value(mean), m.value(xr[d]) - m.value(mean)),
        |i: int| exact::times(m.value(x[r * c + i]) - mu, m.value(x[r * c + i]) - mu),
    );
    exact::lemma_cancels(m.value(variance), var, nr);
    // One over the root.
    let eps: Term<T> = Term::Bits(0x3727_c5ac);
    assert(m.value(eps) == (m.bits)(0x3727_c5ac));
    let under = scalar::sum(variance, eps);
    assert(m.value(under) == var + 1real / 100000real);
    exact::lemma_square(dev);
    exact::lemma_not_zero(dev, dev);
    let root = scalar::apply1(Unary::Sqrt, under);
    assert(m.value(root) == (m.image)(Unary::Sqrt, m.value(under)));
    exact::lemma_same_square(m.value(root), dev);
    let one = scalar::one::<T>();
    assert(m.value(one) == 1real);
    assert(rs == scalar::quotient(one, root));
    let s = m.value(rs);
    assert(s == exact::over(1real, dev));
    exact::lemma_divides(1real, dev);
    // The number.
    let d = scalar::difference(x[at], mean);
    assert(m.value(d) == m.value(x[at]) - mu);
    let ds = scalar::product(d, rs);
    let v = scalar::product(ds, g[e]);
    assert(m.value(ds) == exact::times(m.value(d), s));
    assert(m.value(v) == exact::times(m.value(ds), m.value(g[e])));
    exact::lemma_swaps(m.value(ds), m.value(g[e]), dev);
    exact::lemma_associates(m.value(d), s, dev);
    exact::lemma_units(m.value(d));
    let y = layers::normalised(x, g, bias, rows, c)[at];
    assert(y == layers::ln_at(x, g, bias, c, at));
    match bias {
        Some(b) => {
            assert(y == scalar::sum(v, b[e]));
            assert(m.value(y) == m.value(v) + m.value(b[e]));
        },
        None => {
            assert(y == v);
        },
    }
}

/// GELU by its approximation: twice the result is `x * (1 + tanh(k * (x + 0.044715 * x^3)))`,
/// where `k` is the root of two over pi.
pub proof fn law_gelu<T>(m: Exact<T>, x: Term<T>, k: real)
    requires
        m.ok(),
        2real * (m.bits)(0x3f00_0000) == 1real,
        1000000real * (m.bits)(0x3d37_2713) == 44715real,
        (m.bits)(0x3f4c_422a) == k,
        k > 0real,
        exact::times(exact::times(k, k), m.pi()) == 2real,
    ensures
        ({
            let v = m.value(x);
            let cube = exact::times(exact::times(v, v), v);
            let inner = exact::times(k, v + exact::times(44715real / 1000000real, cube));
            2real * m.value(layers::gelu(x)) == exact::times(
                v,
                1real + (m.image)(Unary::Tanh, inner),
            )
        }),
{
    let v = m.value(x);
    let cube = exact::times(exact::times(v, v), v);
    let h = (m.bits)(0x3f00_0000);
    let a = (m.bits)(0x3d37_2713);
    let ta: Term<T> = Term::Bits(0x3d37_2713);
    let tk: Term<T> = Term::Bits(0x3f4c_422a);
    let th: Term<T> = Term::Bits(0x3f00_0000);
    assert(m.value(ta) == a && m.value(tk) == k && m.value(th) == h);
    assert(a == 44715real / 1000000real);
    let x1 = scalar::product(ta, x);
    let x2 = scalar::product(x1, x);
    let x3 = scalar::product(x2, x);
    assert(m.value(x1) == exact::times(a, v));
    assert(m.value(x2) == exact::times(m.value(x1), v));
    assert(m.value(x3) == exact::times(m.value(x2), v));
    exact::lemma_associates(a, v, v);
    exact::lemma_associates(a, exact::times(v, v), v);
    let s = scalar::sum(x, x3);
    assert(m.value(s) == v + exact::times(a, cube));
    let inner = layers::gelu_inner(x);
    assert(inner == scalar::product(tk, s));
    assert(m.value(inner) == exact::times(k, m.value(s)));
    let tanh = scalar::apply1(Unary::Tanh, inner);
    let t = m.value(tanh);
    assert(t == (m.image)(Unary::Tanh, m.value(inner)));
    let one = scalar::one::<T>();
    assert(m.value(one) == 1real);
    let up = scalar::sum(one, tanh);
    assert(m.value(up) == 1real + t);
    let hx = scalar::product(th, x);
    assert(m.value(hx) == exact::times(h, v));
    let y = layers::gelu(x);
    assert(y == scalar::product(hx, up));
    assert(m.value(y) == exact::times(m.value(hx), m.value(up)));
    exact::lemma_associates(h, v, 1real + t);
    let vt = exact::times(v, 1real + t);
    exact::lemma_distributes(vt, h, h);
    exact::lemma_units(vt);
}

/// Attention weights: those of one position for the positions up to itself are positive and
/// add up to one. With `root` for the root of the head size, and for each position the score
/// `s(j)` that is the product of query and key over `root`, a weight is `exp(s(j) - s(l))`
/// times another.
pub proof fn law_attention_weights<T>(
    m: Exact<T>,
    att: Seq<Term<T>>,
    qkv: Seq<Term<T>>,
    d: Dims,
    bb: int,
    i: int,
    h: int,
    root: real,
    s: spec_fn(int) -> real,
)
    requires
        m.ok(),
        m.takes_exponentials(),
        d.ok(),
        d.c >= 1,
        block::are_weights(att, qkv, d),
        0 <= bb < d.b,
        0 <= i < d.t,
        0 <= h < d.nh,
        root > 0real,
        exact::times(root, root) == d.hs as real,
        forall|j: int|
            0 <= j <= i ==> exact::times(#[trigger] s(j), root) == exact::sum(
                d.hs as int,
                |e: int|
                    exact::times(
                        m.value(qkv[d.at(bb, i, 0, h) + e]),
                        m.value(qkv[d.at(bb, j, 1, h) + e]),
                    ),
            ),
    ensures
        forall|j: int|
            0 <= j <= i ==> m.value(#[trigger] att[d.weight_row(bb, i, h) + j]) > 0real,
        exact::sum(i + 1, |j: int| m.value(att[d.weight_row(bb, i, h) + j])) == 1real,
        forall|j: int, l: int|
            #![trigger att[d.weight_row(bb, i, h) + j], att[d.weight_row(bb, i, h) + l]]
            0 <= j <= i && 0 <= l <= i ==> m.value(att[d.weight_row(bb, i, h) + j])
                == exact::times(
                m.value(att[d.weight_row(bb, i, h) + l]),
                (m.image)(Unary::Exp, s(j) - s(l)),
            ),
{
    let base = d.weight_row(bb, i, h);
    let scores = attention::scores(qkv, d, bb, i, h);
    let p = ops::softmax(scores);
    attention_slopes::lemma_head_size(d);
    let inverse = attention::inverse_root::<T>(d.hs);
    let count: Term<T> = Term::Count(d.hs);
    let one = scalar::one::<T>();
    assert(m.value(count) == d.hs as real);
    assert(m.value(one) == 1real);
    let rt = scalar::apply1(Unary::Sqrt, count);
    assert(m.value(rt) == (m.image)(Unary::Sqrt, d.hs as real));
    assert(d.hs as real > 0real);
    exact::lemma_same_square(m.value(rt), root);
    let inv = m.value(inverse);
    assert(inv == exact::over(1real, root));
    exact::lemma_divides(1real, root);
    assert forall|j: int| 0 <= j <= i implies att[base + j] == p[j] && #[trigger] s(j) == m.value(
        scores[j],
    ) by {
        causal::lemma_weight_place(d, bb, i, j, h);
        assert(att[base + j] == attention::weight(qkv, d, base + j));
        let (a, b) = (d.at(bb, i, 0, h), d.at(bb, j, 1, h));
        let dot = ops::dot(qkv, qkv, a, b, d.hs as nat);
        adjoint::lemma_dot(m, qkv, qkv, a, b, d.hs as nat);
        assert(scores[j] == scalar::product(dot, inverse));
        assert(m.value(scores[j]) == exact::times(m.value(dot), inv));
        exact::lemma_associates(m.value(dot), inv, root);
        exact::lemma_units(m.value(dot));
        exact::lemma_cancels(m.value(scores[j]), s(j), root);
    }
    law_softmax_shares_by_exponentials(m, scores);
    assert forall|j: int| 0 <= j <= i implies m.value(#[trigger] att[base + j]) > 0real by {
        assert(s(j) == m.value(scores[j]));
        assert(m.value(p[j]) > 0real);
    }
    let f = |j: int| m.value(p[j]);
    let g = |j: int| m.value(att[base + j]);
    assert forall|j: int| 0 <= j < i + 1 implies #[trigger] f(j) == g(j) by {
        assert(s(j) == m.value(scores[j]));
    }
    exact::lemma_same(i + 1, f, g);
    assert forall|j: int, l: int|
        #![trigger att[base + j], att[base + l]]
        0 <= j <= i && 0 <= l <= i implies m.value(att[base + j]) == exact::times(
        m.value(att[base + l]),
        (m.image)(Unary::Exp, s(j) - s(l)),
    ) by {
        assert(s(j) == m.value(scores[j]));
        assert(s(l) == m.value(scores[l]));
        assert(m.value(p[j]) == exact::times(
            m.value(p[l]),
            (m.image)(Unary::Exp, m.value(scores[j]) - m.value(scores[l])),
        ));
    }
}

/// The output of attention: the values of the positions up to the one that attends, each
/// times its weight, added up. With dropout a weight counts where its mask is one, times the
/// scale.
pub proof fn law_attention_output<T>(
    m: Exact<T>,
    att: Seq<Term<T>>,
    mask: Seq<u8>,
    scale: Term<T>,
    qkv: Seq<Term<T>>,
    d: Dims,
    bb: int,
    i: int,
    h: int,
    e: int,
)
    requires
        m.ok(),
        d.ok(),
        0 <= bb < d.b,
        0 <= i < d.t,
        0 <= h < d.nh,
        0 <= e < d.hs,
    ensures
        m.value(attention::outputs(att, mask, scale, qkv, d)[d.out(bb, i, h) + e]) == exact::sum(
            i + 1,
            |j: int|
                exact::times(
                    if mask.len() == 0 {
                        m.value(att[d.weight_row(bb, i, h) + j])
                    } else {
                        exact::times(
                            m.value(att[d.weight_row(bb, i, h) + j]),
                            exact::times(
                                mask[d.weight_row(bb, i, h) + j] as real,
                                m.value(scale),
                            ),
                        )
                    },
                    m.value(qkv[d.at(bb, j, 2, h) + e]),
                ),
        ),
{
    let x = d.out(bb, i, h) + e;
    let n = i + 1;
    let base = d.weight_row(bb, i, h);
    attention::lemma_at(d, bb, i, 0, h);
    ops::lemma_cell(bb * d.t + i, d.c as int, h * d.hs + e);
    ops::lemma_cell(bb, d.t as int, i);
    ops::lemma_cell(h, d.hs as int, e);
    let w = attention::applied_weights(att, mask, scale, d, bb, i, h);
    let at = d.at(bb, 0, 2, h) + e;
    let zero = scalar::zero::<T>();
    assert(m.value(zero) == 0real);
    let out = attention::weighted(zero, w, qkv, at, 3 * d.c, n as nat);
    assert(attention::outputs(att, mask, scale, qkv, d)[x] == out);
    attention_slopes::lemma_weighted(m, zero, w, qkv, at, 3 * d.c, n as nat);
    let f = |j: int| exact::times(m.value(w[j]), m.value(qkv[at + j * (3 * d.c)]));
    let g = |j: int|
        exact::times(
            if mask.len() == 0 {
                m.value(att[base + j])
            } else {
                exact::times(
                    m.value(att[base + j]),
                    exact::times(mask[base + j] as real, m.value(scale)),
                )
            },
            m.value(qkv[d.at(bb, j, 2, h) + e]),
        );
    assert forall|j: int| 0 <= j < n implies #[trigger] f(j) == g(j) by {
        attention::lemma_stride(d, bb, j, 2, h);
        assert(w[j] == attention::applied_weight(att, mask, scale, base + j));
        if mask.len() != 0 {
            let count: Term<T> = Term::Count(mask[base + j] as usize);
            assert(m.value(count) == mask[base + j] as real);
            let fs = scalar::product(count, scale);
            assert(m.value(fs) == exact::times(m.value(count), m.value(scale)));
        }
    }
    exact::lemma_same(n, f, g);
}

/// The logits: the number in row `r` and column `o` is the product of the last activations of
/// position `r` and the embedding of token `o`.
pub proof fn law_logits_are_products_with_embeddings<T>(
    m: Exact<T>,
    params: Seq<Term<T>>,
    cfg: GptConfig,
    lnf_out: Seq<Term<T>>,
    rows: int,
    r: int,
    o: int,
)
    requires
        m.ok(),
        0 <= r < rows,
        0 <= o < cfg.vocab_size,
        cfg.vocab_size * cfg.n_embd <= params.len(),
    ensures
        m.value(forward::logits_of(params, cfg, lnf_out, rows)[r * cfg.vocab_size + o])
            == exact::sum(
            cfg.n_embd as int,
            |e: int|
                exact::times(
                    m.value(lnf_out[r * cfg.n_embd + e]),
                    m.value(params[o * cfg.n_embd + e]),
                ),
        ),
{
    let c = cfg.n_embd as int;
    let v = cfg.vocab_size as int;
    ops::lemma_row_end(r, rows, v);
    ops::lemma_row_end(o, v, c);
    ops::lemma_cell(r, v, o);
    let zeros = layout::zeros::<T>((rows * v) as nat);
    let at = r * v + o;
    let emb = params.subrange(0, v * c);
    let dot = ops::dot(lnf_out, emb, r * c, o * c, c as nat);
    assert(zeros[at] == scalar::zero::<T>());
    assert(m.value(zeros[at]) == 0real);
    adjoint::lemma_dot(m, lnf_out, emb, r * c, o * c, c as nat);
    let y = forward::logits_of(params, cfg, lnf_out, rows)[at];
    assert(y == scalar::sum(zeros[at], dot));
    assert(m.value(y) == m.value(zeros[at]) + m.value(dot));
    let f = |e: int| exact::times(m.value(lnf_out[r * c + e]), m.value(emb[o * c + e]));
    let g = |e: int| exact::times(m.value(lnf_out[r * c + e]), m.value(params[o * c + e]));
    assert forall|e: int| 0 <= e < c implies #[trigger] f(e) == g(e) by {
        assert(emb[o * c + e] == params[o * c + e]);
    }
    exact::lemma_same(c, f, g);
}

proof fn lemma_loss_sum<T>(
    m: Exact<T>,
    probs: Seq<Term<T>>,
    targets: Seq<u32>,
    v: int,
    n: nat,
)
    requires
        m.ok(),
    ensures
        m.value(forward::loss_sum(probs, targets, v, n)) == exact::sum(
            n as int,
            |i: int| -log_of(m, m.value(probs[i * v + targets[i]])),
        ),
    decreases n,
{
    if n > 0 {
        lemma_loss_sum(m, probs, targets, v, (n - 1) as nat);
        let p = probs[(n - 1) * v + targets[n - 1]];
        let least: Term<T> = Term::Bits(0x2b8c_bccc);
        let at_least = scalar::apply2(Binary::Maximum, p, least);
        assert(m.value(least) == (m.bits)(0x2b8c_bccc));
        let ln = scalar::apply1(Unary::Ln, at_least);
        assert(m.value(ln) == (m.image)(Unary::Ln, m.value(at_least)));
        assert(m.value(ln) == log_of(m, m.value(p)));
    }
}

/// The logarithm of a probability, or of 1e-12 where the probability is less.
pub open spec fn log_of<T>(m: Exact<T>, p: real) -> real {
    (m.image)(
        Unary::Ln,
        if p < (m.bits)(0x2b8c_bccc) {
            (m.bits)(0x2b8c_bccc)
        } else {
            p
        },
    )
}

/// The loss is the mean over the targets of minus the logarithm of their probabilities.
pub proof fn law_loss_is_mean_of_logarithms<T>(
    m: Exact<T>,
    probs: Seq<Term<T>>,
    targets: Seq<u32>,
    v: int,
    n: nat,
)
    requires
        m.ok(),
        1 <= n <= usize::MAX,
    ensures
        exact::times(m.value(forward::loss_of(probs, targets, v, n)), n as real) == exact::sum(
            n as int,
            |i: int| -log_of(m, m.value(probs[i * v + targets[i]])),
        ),
{
    lemma_loss_sum(m, probs, targets, v, n);
    let total = forward::loss_sum(probs, targets, v, n);
    let one = scalar::one::<T>();
    let share = scalar::quotient(one, Term::Count(n as usize));
    assert(m.value(one) == 1real);
    norm_slopes::lemma_over_count(m, one, n as usize);
    let loss = forward::loss_of(probs, targets, v, n);
    assert(loss == scalar::product(total, share));
    assert(m.value(loss) == exact::times(m.value(total), m.value(share)));
    exact::lemma_associates(m.value(total), m.value(share), n as real);
    exact::lemma_units(m.value(total));
}

} // verus!
