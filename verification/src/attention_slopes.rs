//! The gradient of attention, in exact arithmetic.
use crate::adjoint;
use crate::attention;
use crate::attention::{Back, Dims};
use crate::block;
use crate::causal;
use crate::exact;
use crate::exact::Exact;
use crate::head_slopes;
use crate::head_slopes::Head;
use crate::layout;
use crate::loss_slopes;
use crate::ops;
use crate::scalar;
use crate::scalar::{Term, Unary};
use vstd::prelude::*;

verus! {

/// The factor of the dropout of the weight at place `x`.
pub open spec fn factor<T>(m: Exact<T>, k: Back<T>, x: int) -> real {
    if k.mask.len() == 0 {
        1real
    } else {
        m.value(scalar::product(Term::<T>::Count(k.mask[x] as usize), k.scale))
    }
}

/// Head `h` over sequence `bb`.
pub open spec fn head_of<T>(m: Exact<T>, k: Back<T>, d: Dims, bb: int, h: int) -> Head {
    Head {
        t: d.t as int,
        hs: d.hs as int,
        dy: |i: int, e: int| m.value(k.dy[d.out(bb, i, h) + e]),
        q: |i: int, e: int| m.value(k.qkv[d.at(bb, i, 0, h) + e]),
        rq: |i: int, e: int| m.rate(k.qkv[d.at(bb, i, 0, h) + e]),
        k: |i: int, e: int| m.value(k.qkv[d.at(bb, i, 1, h) + e]),
        rk: |i: int, e: int| m.rate(k.qkv[d.at(bb, i, 1, h) + e]),
        v: |i: int, e: int| m.value(k.qkv[d.at(bb, i, 2, h) + e]),
        rv: |i: int, e: int| m.rate(k.qkv[d.at(bb, i, 2, h) + e]),
        a: |i: int, j: int| m.value(k.att[d.weight_row(bb, i, h) + j]),
        mu: |i: int, j: int| factor(m, k, d.weight_row(bb, i, h) + j),
        c0: m.value(attention::inverse_root::<T>(d.hs)),
    }
}

/// What the way back through attention starts from belongs together: the weights are those of
/// the queries and keys, and the scale does not change.
pub open spec fn fits<T>(m: Exact<T>, k: Back<T>, d: Dims) -> bool {
    &&& m.ok()
    &&& d.ok()
    &&& d.c >= 1
    &&& block::are_weights(k.att, k.qkv, d)
    &&& m.rate(k.scale) == 0real
}

proof fn lemma_inverse_root<T>(m: Exact<T>, n: usize)
    requires
        m.ok(),
        n >= 1,
    ensures
        m.rate(attention::inverse_root::<T>(n)) == 0real,
{
    let count = Term::<T>::Count(n);
    let root = scalar::apply1(Unary::Sqrt, count);
    let one = scalar::one::<T>();
    assert(m.value(count) == n as real && m.rate(count) == 0real);
    assert(n as real > 0real);
    let s = m.value(root);
    assert(s == (m.image)(Unary::Sqrt, n as real));
    assert(s > 0real);
    exact::lemma_units((m.slope)(Unary::Sqrt, n as real));
    assert(m.rate(root) == 0real);
    assert(m.value(one) == 1real && m.rate(one) == 0real);
    exact::lemma_units(s);
    exact::lemma_units(1real);
    exact::lemma_not_zero(s, s);
    let ss = exact::times(s, s);
    let q = m.rate(attention::inverse_root::<T>(n));
    assert(q == exact::over(exact::times(0real, s) - exact::times(1real, 0real), ss));
    exact::lemma_divides(0real, ss);
    exact::lemma_units(ss);
    exact::lemma_cancels(q, 0real, ss);
}

/// Weighted numbers, added up: value and rate.
pub proof fn lemma_weighted<T>(
    m: Exact<T>,
    s: Term<T>,
    w: Seq<Term<T>>,
    src: Seq<Term<T>>,
    at: int,
    stride: int,
    n: nat,
)
    ensures
        m.value(attention::weighted(s, w, src, at, stride, n)) == m.value(s) + exact::sum(
            n as int,
            |j: int| exact::times(m.value(w[j]), m.value(src[at + j * stride])),
        ),
        m.rate(attention::weighted(s, w, src, at, stride, n)) == m.rate(s) + exact::sum(
            n as int,
            |j: int|
                exact::times(m.rate(w[j]), m.value(src[at + j * stride])) + exact::times(
                    m.value(w[j]),
                    m.rate(src[at + j * stride]),
                ),
        ),
    decreases n,
{
    if n > 0 {
        lemma_weighted(m, s, w, src, at, stride, (n - 1) as nat);
    }
}

/// A head size of at least one.
pub proof fn lemma_head_size(d: Dims)
    requires
        d.ok(),
        d.c >= 1,
    ensures
        d.hs >= 1,
        d.nh >= 1,
{
    let (a, b) = (d.nh as int, d.hs as int);
    assert(a >= 1 && b >= 1) by (nonlinear_arith)
        requires
            a * b >= 1,
            a >= 0,
            b >= 0,
    ;
}

/// The weights of a position and their rates.
proof fn lemma_weight_rates<T>(m: Exact<T>, k: Back<T>, d: Dims, bb: int, i: int, h: int)
    requires
        fits(m, k, d),
        0 <= bb < d.b,
        0 <= i < d.t,
        0 <= h < d.nh,
    ensures
        forall|j: int|
            0 <= j <= i ==> m.rate(#[trigger] k.att[d.weight_row(bb, i, h) + j]) == head_of(
                m,
                k,
                d,
                bb,
                h,
            ).weight_rate(i, j),
{
    let hd = head_of(m, k, d, bb, h);
    let base = d.weight_row(bb, i, h);
    let scores = attention::scores(k.qkv, d, bb, i, h);
    let p = ops::softmax(scores);
    let root = attention::inverse_root::<T>(d.hs);
    let n = i + 1;
    lemma_head_size(d);
    lemma_inverse_root(m, d.hs);
    loss_slopes::lemma_softmax(m, scores);
    assert forall|j: int| 0 <= j < n implies k.att[base + j] == #[trigger] p[j] && m.rate(
        scores[j],
    ) == hd.score_rate(i, j) by {
        causal::lemma_weight_place(d, bb, i, j, h);
        assert(k.att[base + j] == attention::weight(k.qkv, d, base + j));
        let (a, b) = (d.at(bb, i, 0, h), d.at(bb, j, 1, h));
        let dot = ops::dot(k.qkv, k.qkv, a, b, d.hs as nat);
        adjoint::lemma_dot(m, k.qkv, k.qkv, a, b, d.hs as nat);
        adjoint::lemma_product(m, dot, root);
        exact::lemma_units(m.value(dot));
        exact::lemma_same(
            d.hs as int,
            |e: int|
                exact::times(m.rate(k.qkv[a + e]), m.value(k.qkv[b + e])) + exact::times(
                    m.value(k.qkv[a + e]),
                    m.rate(k.qkv[b + e]),
                ),
            |e: int|
                exact::times((hd.rq)(i, e), (hd.k)(j, e)) + exact::times(
                    (hd.q)(i, e),
                    (hd.rk)(j, e),
                ),
        );
        assert(scores[j] == scalar::product(dot, root));
    }
    let x = |l: int| exact::times(m.value(p[l]), m.rate(scores[l]));
    let y = |l: int| exact::times((hd.a)(i, l), hd.score_rate(i, l));
    assert forall|l: int| 0 <= l < n implies #[trigger] x(l) == y(l) by {
        assert(k.att[base + l] == p[l]);
    }
    exact::lemma_same(n, x, y);
    assert forall|j: int| 0 <= j <= i implies m.rate(#[trigger] k.att[base + j]) == hd.weight_rate(
        i,
        j,
    ) by {
        assert(k.att[base + j] == p[j]);
        assert(m.rate(scores[j]) == hd.score_rate(i, j));
    }
}

/// The weights as they are applied.
proof fn lemma_applied<T>(m: Exact<T>, k: Back<T>, d: Dims, bb: int, i: int, j: int, h: int)
    requires
        fits(m, k, d),
        0 <= bb < d.b,
        0 <= j <= i < d.t,
        0 <= h < d.nh,
    ensures
        ({
            let hd = head_of(m, k, d, bb, h);
            let w = attention::applied_weight(
                k.att,
                k.mask,
                k.scale,
                d.weight_row(bb, i, h) + j,
            );
            &&& m.value(w) == hd.w(i, j)
            &&& m.rate(w) == hd.rw(i, j)
            &&& m.value(attention::kept_weight(k, d, bb, i, j, h)) == hd.w(i, j)
        }),
{
    let hd = head_of(m, k, d, bb, h);
    let x = d.weight_row(bb, i, h) + j;
    lemma_weight_rates(m, k, d, bb, i, h);
    assert(m.rate(k.att[x]) == hd.weight_rate(i, j));
    exact::lemma_units(m.value(k.att[x]));
    exact::lemma_units(m.rate(k.att[x]));
    if k.mask.len() != 0 {
        let count = Term::<T>::Count(k.mask[x] as usize);
        let f = scalar::product(count, k.scale);
        adjoint::lemma_product(m, count, k.scale);
        adjoint::lemma_product(m, k.att[x], f);
        assert(m.rate(count) == 0real);
        exact::lemma_units(m.value(k.scale));
        exact::lemma_units(m.value(count));
        assert(m.rate(f) == 0real);
        adjoint::lemma_product(m, k.att[x], count);
        adjoint::lemma_product(m, scalar::product(k.att[x], count), k.scale);
        exact::lemma_associates(m.value(k.att[x]), m.value(count), m.value(k.scale));
    }
}

/// The rate of the output at one place.
proof fn lemma_output<T>(m: Exact<T>, k: Back<T>, d: Dims, bb: int, i: int, h: int, e: int)
    requires
        fits(m, k, d),
        0 <= bb < d.b,
        0 <= i < d.t,
        0 <= h < d.nh,
        0 <= e < d.hs,
    ensures
        ({
            let hd = head_of(m, k, d, bb, h);
            m.rate(
                attention::outputs(k.att, k.mask, k.scale, k.qkv, d)[d.out(bb, i, h) + e],
            ) == exact::sum(
                hd.t,
                |j: int|
                    exact::times(hd.rw(i, j), (hd.v)(j, e)) + exact::times(
                        hd.w(i, j),
                        (hd.rv)(j, e),
                    ),
            )
        }),
{
    let hd = head_of(m, k, d, bb, h);
    let x = d.out(bb, i, h) + e;
    let n = i + 1;
    attention::lemma_at(d, bb, i, 0, h);
    ops::lemma_cell(bb * d.t + i, d.c as int, h * d.hs + e);
    ops::lemma_cell(bb, d.t as int, i);
    ops::lemma_cell(h, d.hs as int, e);
    let w = attention::applied_weights(k.att, k.mask, k.scale, d, bb, i, h);
    let at = d.at(bb, 0, 2, h) + e;
    let zero = scalar::zero::<T>();
    assert(m.rate(zero) == 0real);
    let out = attention::weighted(zero, w, k.qkv, at, 3 * d.c, n as nat);
    assert(attention::outputs(k.att, k.mask, k.scale, k.qkv, d)[x] == out);
    lemma_weighted(m, zero, w, k.qkv, at, 3 * d.c, n as nat);
    let f = |j: int|
        exact::times(m.rate(w[j]), m.value(k.qkv[at + j * (3 * d.c)])) + exact::times(
            m.value(w[j]),
            m.rate(k.qkv[at + j * (3 * d.c)]),
        );
    let g = |j: int|
        exact::times(hd.rw(i, j), (hd.v)(j, e)) + exact::times(hd.w(i, j), (hd.rv)(j, e));
    assert forall|j: int| 0 <= j < d.t implies #[trigger] g(j) == if j < n {
        f(j)
    } else {
        0real
    } by {
        if j < n {
            lemma_applied(m, k, d, bb, i, j, h);
            attention::lemma_stride(d, bb, j, 2, h);
        } else {
            exact::lemma_units((hd.v)(j, e));
            exact::lemma_units((hd.rv)(j, e));
        }
    }
    exact::lemma_up_to(d.t as int, n, f, g);
}

/// The gradient of a weight.
proof fn lemma_weight_grad<T>(m: Exact<T>, k: Back<T>, d: Dims, bb: int, i: int, j: int, h: int)
    requires
        m.ok(),
    ensures
        m.value(attention::weight_grad(k, d, bb, i, j, h)) == head_of(m, k, d, bb, h).u(i, j),
{
    let hd = head_of(m, k, d, bb, h);
    let (a, b) = (d.out(bb, i, h), d.at(bb, j, 2, h));
    let s = ops::dot(k.dy, k.qkv, a, b, d.hs as nat);
    adjoint::lemma_dot(m, k.dy, k.qkv, a, b, d.hs as nat);
    exact::lemma_same(
        d.hs as int,
        |e: int| exact::times(m.value(k.dy[a + e]), m.value(k.qkv[b + e])),
        |e: int| exact::times((hd.dy)(i, e), (hd.v)(j, e)),
    );
    exact::lemma_units(m.value(s));
    if k.mask.len() != 0 {
        let f = scalar::product(
            Term::<T>::Count(k.mask[d.weight_row(bb, i, h) + j] as usize),
            k.scale,
        );
        adjoint::lemma_product(m, s, f);
    }
}

proof fn lemma_row_dot<T>(m: Exact<T>, k: Back<T>, d: Dims, bb: int, i: int, h: int, n: nat)
    requires
        m.ok(),
    ensures
        m.value(attention::row_dot(k, d, bb, i, h, n)) == exact::sum(
            n as int,
            |j: int|
                exact::times(
                    (head_of(m, k, d, bb, h).a)(i, j),
                    head_of(m, k, d, bb, h).u(i, j),
                ),
        ),
    decreases n,
{
    if n > 0 {
        lemma_row_dot(m, k, d, bb, i, h, (n - 1) as nat);
        let j = n - 1;
        lemma_weight_grad(m, k, d, bb, i, j, h);
        adjoint::lemma_product(
            m,
            k.att[d.weight_row(bb, i, h) + j],
            attention::weight_grad(k, d, bb, i, j, h),
        );
    }
}

/// The gradient of the product of a query and a key.
proof fn lemma_score_grad<T>(m: Exact<T>, k: Back<T>, d: Dims, bb: int, i: int, j: int, h: int)
    requires
        m.ok(),
        0 <= i,
    ensures
        m.value(attention::score_grad(k, d, bb, i, j, h)) == head_of(m, k, d, bb, h).g(i, j),
{
    let hd = head_of(m, k, d, bb, h);
    let att = k.att[d.weight_row(bb, i, h) + j];
    let wg = attention::weight_grad(k, d, bb, i, j, h);
    let rd = attention::row_dot(k, d, bb, i, h, (i + 1) as nat);
    lemma_weight_grad(m, k, d, bb, i, j, h);
    lemma_row_dot(m, k, d, bb, i, h, (i + 1) as nat);
    exact::lemma_same(
        i + 1,
        |j: int|
            exact::times((head_of(m, k, d, bb, h).a)(i, j), head_of(m, k, d, bb, h).u(i, j)),
        |j: int| exact::times((hd.a)(i, j), hd.u(i, j)),
    );
    let diff = scalar::difference(wg, rd);
    assert(m.value(diff) == m.value(wg) - m.value(rd));
    let p = scalar::product(att, diff);
    adjoint::lemma_product(m, att, diff);
    adjoint::lemma_product(m, p, attention::inverse_root::<T>(d.hs));
}

/// The gradient of a query.
proof fn lemma_query_grad<T>(
    m: Exact<T>,
    k: Back<T>,
    d: Dims,
    bb: int,
    pos: int,
    h: int,
    e: int,
)
    requires
        fits(m, k, d),
        0 <= pos < d.t,
    ensures
        ({
            let hd = head_of(m, k, d, bb, h);
            m.value(attention::qkv_grad(scalar::zero(), k, d, bb, pos, 0, h, e)) == exact::sum(
                hd.t,
                |j: int| exact::times(hd.gg(pos, j), (hd.k)(j, e)),
            )
        }),
{
    let hd = head_of(m, k, d, bb, h);
    let n = pos + 1;
    let w = Seq::new(n as nat, |j: int| attention::score_grad(k, d, bb, pos, j, h));
    let at = d.at(bb, 0, 1, h) + e;
    let zero = scalar::zero::<T>();
    assert(m.value(zero) == 0real);
    lemma_weighted(m, zero, w, k.qkv, at, 3 * d.c, n as nat);
    let f = |j: int| exact::times(m.value(w[j]), m.value(k.qkv[at + j * (3 * d.c)]));
    let g = |j: int| exact::times(hd.gg(pos, j), (hd.k)(j, e));
    assert forall|j: int| 0 <= j < d.t implies #[trigger] g(j) == if j < n {
        f(j)
    } else {
        0real
    } by {
        if j < n {
            lemma_score_grad(m, k, d, bb, pos, j, h);
            attention::lemma_stride(d, bb, j, 1, h);
        } else {
            exact::lemma_units((hd.k)(j, e));
        }
    }
    exact::lemma_up_to(d.t as int, n, f, g);
}

/// The gradients of a key and of a value.
proof fn lemma_key_grad<T>(
    m: Exact<T>,
    k: Back<T>,
    d: Dims,
    bb: int,
    pos: int,
    h: int,
    e: int,
)
    requires
        fits(m, k, d),
        0 <= bb < d.b,
        0 <= h < d.nh,
        0 <= pos < d.t,
    ensures
        ({
            let hd = head_of(m, k, d, bb, h);
            &&& m.value(attention::qkv_grad(scalar::zero(), k, d, bb, pos, 1, h, e)) == exact::sum(
                hd.t,
                |i: int| exact::times(hd.gg(i, pos), (hd.q)(i, e)),
            )
            &&& m.value(attention::qkv_grad(scalar::zero(), k, d, bb, pos, 2, h, e)) == exact::sum(
                hd.t,
                |i: int| exact::times(hd.w(i, pos), (hd.dy)(i, e)),
            )
        }),
{
    let hd = head_of(m, k, d, bb, h);
    let t = d.t as int;
    let n = (t - pos) as nat;
    let zero = scalar::zero::<T>();
    assert(m.value(zero) == 0real);
    // The key.
    let w1 = Seq::new(n, |x: int| attention::score_grad(k, d, bb, pos + x, pos, h));
    let at = d.at(bb, pos, 0, h) + e;
    lemma_weighted(m, zero, w1, k.qkv, at, 3 * d.c, n);
    let f1 = |x: int| exact::times(m.value(w1[x]), m.value(k.qkv[at + x * (3 * d.c)]));
    let g1 = |i: int| exact::times(hd.gg(i, pos), (hd.q)(i, e));
    assert forall|i: int| 0 <= i < pos implies #[trigger] g1(i) == 0real by {
        exact::lemma_units((hd.q)(i, e));
    }
    assert forall|x: int| 0 <= x < t - pos implies #[trigger] f1(x) == g1(pos + x) by {
        lemma_score_grad(m, k, d, bb, pos + x, pos, h);
        lemma_further(d, bb, pos, x, h);
    }
    exact::lemma_from(t, pos, f1, g1);
    // The value.
    let w2 = Seq::new(n, |x: int| attention::kept_weight(k, d, bb, pos + x, pos, h));
    let out = d.out(bb, pos, h) + e;
    lemma_weighted(m, zero, w2, k.dy, out, d.c as int, n);
    let f2 = |x: int| exact::times(m.value(w2[x]), m.value(k.dy[out + x * d.c]));
    let g2 = |i: int| exact::times(hd.w(i, pos), (hd.dy)(i, e));
    assert forall|i: int| 0 <= i < pos implies #[trigger] g2(i) == 0real by {
        exact::lemma_units((hd.dy)(i, e));
    }
    assert forall|x: int| 0 <= x < t - pos implies #[trigger] f2(x) == g2(pos + x) by {
        lemma_applied(m, k, d, bb, pos + x, pos, h);
        lemma_further(d, bb, pos, x, h);
    }
    exact::lemma_from(t, pos, f2, g2);
}

/// Places of later positions.
proof fn lemma_further(d: Dims, bb: int, pos: int, x: int, h: int)
    ensures
        d.at(bb, pos, 0, h) + x * (3 * d.c) == d.at(bb, pos + x, 0, h),
        d.out(bb, pos, h) + x * d.c == d.out(bb, pos + x, h),
{
    attention::lemma_stride(d, bb, pos, 0, h);
    attention::lemma_stride(d, bb, pos + x, 0, h);
    let (w, c) = (3 * d.c, d.c as int);
    assert((pos + x) * w == pos * w + x * w) by (nonlinear_arith);
    assert((pos + x) * c == pos * c + x * c) by (nonlinear_arith);
}

/// The place of head `h`, sequence `bb`, position `pos` in part `part`.
proof fn lemma_decode(d: Dims, bb: int, pos: int, part: int, h: int, e: int)
    requires
        d.ok(),
        0 <= bb < d.b,
        0 <= pos < d.t,
        0 <= part < 3,
        0 <= h < d.nh,
        0 <= e < d.hs,
    ensures
        ({
            let x = d.at(bb, pos, part, h) + e;
            &&& 0 <= x < d.b * d.t * (3 * d.c)
            &&& (x / (3 * d.c)) / d.t as int == bb
            &&& (x / (3 * d.c)) % d.t as int == pos
            &&& (x % (3 * d.c)) / d.c as int == part
            &&& ((x % (3 * d.c)) % d.c as int) / d.hs as int == h
            &&& ((x % (3 * d.c)) % d.c as int) % d.hs as int == e
        }),
{
    attention::lemma_at(d, bb, pos, part, h);
    let row = bb * d.t + pos;
    ops::lemma_cell(row, 3 * d.c, part * d.c + h * d.hs + e);
    ops::lemma_cell(part, d.c as int, h * d.hs + e);
    ops::lemma_cell(h, d.hs as int, e);
    ops::lemma_cell(bb, d.t as int, pos);
}

/// What falls to one part of queries, keys and values, by sequences and heads.
spec fn fall<T>(m: Exact<T>, k: Back<T>, d: Dims, part: int, bb: int, h: int) -> real {
    let hd = head_of(m, k, d, bb, h);
    if part == 0 {
        hd.queries()
    } else if part == 1 {
        hd.keys()
    } else {
        hd.values()
    }
}

/// One part of queries, keys and values: its rates against its gradients, by sequences and
/// heads.
proof fn lemma_part<T>(m: Exact<T>, k: Back<T>, d: Dims, part: int)
    requires
        fits(m, k, d),
        0 <= part < 3,
    ensures
        ({
            let g = attention::qkv_grads(
                layout::zeros((d.b * d.t * (3 * d.c)) as nat),
                k,
                d,
            );
            exact::sum(
                d.b * d.t,
                |row: int|
                    exact::sum(
                        d.nh * d.hs,
                        |x: int|
                            exact::times(
                                m.value(g[row * (3 * d.c) + part * d.c + x]),
                                m.rate(k.qkv[row * (3 * d.c) + part * d.c + x]),
                            ),
                    ),
            ) == exact::sum2(
                d.b as int,
                d.nh as int,
                |bb: int, h: int| fall(m, k, d, part, bb, h),
            )
        }),
{
    let g = attention::qkv_grads(layout::zeros((d.b * d.t * (3 * d.c)) as nat), k, d);
    let (t, hs, w, o) = (d.t as int, d.hs as int, 3 * d.c, part * d.c);
    let f = |z: int| exact::times(m.value(g[z]), m.rate(k.qkv[z]));
    let falls = |bb: int, h: int| fall(m, k, d, part, bb, h);
    assert forall|bb: int, h: int| 0 <= bb < d.b && 0 <= h < d.nh implies #[trigger] falls(bb, h)
        == exact::sum2(t, hs, |i: int, e: int| f((bb * t + i) * w + o + h * hs + e)) by {
        let hd = head_of(m, k, d, bb, h);
        let a = |i: int, e: int| f((bb * t + i) * w + o + h * hs + e);
        let b0 = |i: int, e: int|
            exact::times(
                exact::sum(hd.t, |j: int| exact::times(hd.gg(i, j), (hd.k)(j, e))),
                (hd.rq)(i, e),
            );
        let b1 = |j: int, e: int|
            exact::times(
                exact::sum(hd.t, |i: int| exact::times(hd.gg(i, j), (hd.q)(i, e))),
                (hd.rk)(j, e),
            );
        let b2 = |j: int, e: int|
            exact::times(
                exact::sum(hd.t, |i: int| exact::times(hd.w(i, j), (hd.dy)(i, e))),
                (hd.rv)(j, e),
            );
        let b = if part == 0 {
            b0
        } else if part == 1 {
            b1
        } else {
            b2
        };
        assert forall|i: int, e: int| 0 <= i < t && 0 <= e < hs implies #[trigger] a(i, e) == b(
            i,
            e,
        ) by {
            lemma_decode(d, bb, i, part, h, e);
            let x = d.at(bb, i, part, h) + e;
            assert(x == (bb * t + i) * w + o + h * hs + e);
            assert(g[x] == attention::qkv_grad(scalar::zero(), k, d, bb, i, part, h, e));
            if part == 0 {
                lemma_query_grad(m, k, d, bb, i, h, e);
            } else {
                lemma_key_grad(m, k, d, bb, i, h, e);
            }
        }
        exact::lemma_same2(t, hs, a, b);
    }
    head_slopes::lemma_by_heads(d.b as int, t, d.nh as int, hs, w, o, f, falls);
    let rows1 = |row: int| exact::sum(d.nh * d.hs, |x: int| f(row * w + o + x));
    let rows2 = |row: int|
        exact::sum(
            d.nh * d.hs,
            |x: int|
                exact::times(
                    m.value(g[row * (3 * d.c) + part * d.c + x]),
                    m.rate(k.qkv[row * (3 * d.c) + part * d.c + x]),
                ),
        );
    assert forall|row: int| 0 <= row < d.b * d.t implies #[trigger] rows1(row) == rows2(row) by {
        exact::lemma_same(
            d.nh * d.hs,
            |x: int| f(row * w + o + x),
            |x: int|
                exact::times(
                    m.value(g[row * (3 * d.c) + part * d.c + x]),
                    m.rate(k.qkv[row * (3 * d.c) + part * d.c + x]),
                ),
        );
    }
    exact::lemma_same(d.b * d.t, rows1, rows2);
}

/// The rate of the output against its gradient, by sequences and heads.
proof fn lemma_outputs<T>(m: Exact<T>, k: Back<T>, d: Dims)
    requires
        fits(m, k, d),
    ensures
        adjoint::pair(
            m,
            k.dy,
            attention::outputs(k.att, k.mask, k.scale, k.qkv, d),
            d.b * d.t * d.c,
        ) == exact::sum2(
            d.b as int,
            d.nh as int,
            |bb: int, h: int| head_of(m, k, d, bb, h).output(),
        ),
{
    let y = attention::outputs(k.att, k.mask, k.scale, k.qkv, d);
    let (t, hs, c) = (d.t as int, d.hs as int, d.c as int);
    let f = |z: int| exact::times(m.value(k.dy[z]), m.rate(y[z]));
    let falls = |bb: int, h: int| head_of(m, k, d, bb, h).output();
    assert forall|bb: int, h: int| 0 <= bb < d.b && 0 <= h < d.nh implies #[trigger] falls(bb, h)
        == exact::sum2(t, hs, |i: int, e: int| f((bb * t + i) * c + 0 + h * hs + e)) by {
        let hd = head_of(m, k, d, bb, h);
        let a = |i: int, e: int| f((bb * t + i) * c + 0 + h * hs + e);
        let b = |i: int, e: int|
            exact::times(
                (hd.dy)(i, e),
                exact::sum(
                    hd.t,
                    |j: int|
                        exact::times(hd.rw(i, j), (hd.v)(j, e)) + exact::times(
                            hd.w(i, j),
                            (hd.rv)(j, e),
                        ),
                ),
            );
        assert forall|i: int, e: int| 0 <= i < t && 0 <= e < hs implies #[trigger] a(i, e) == b(
            i,
            e,
        ) by {
            lemma_output(m, k, d, bb, i, h, e);
            assert(d.out(bb, i, h) + e == (bb * t + i) * c + 0 + h * hs + e);
        }
        exact::lemma_same2(t, hs, a, b);
    }
    head_slopes::lemma_by_heads(d.b as int, t, d.nh as int, hs, c, 0, f, falls);
    let rows = |row: int| exact::sum(d.nh * d.hs, |x: int| f(row * c + 0 + x));
    let cells = |row: int, x: int| f(row * c + x);
    assert(0 <= d.b * d.t) by (nonlinear_arith)
        requires
            0 <= d.b,
            0 <= d.t,
    ;
    exact::lemma_by_rows(d.b * d.t, c, f, cells);
    let rows2 = |row: int| exact::sum(c, |x: int| cells(row, x));
    assert forall|row: int| 0 <= row < d.b * d.t implies #[trigger] rows(row) == rows2(row) by {
        exact::lemma_same(c, |x: int| f(row * c + 0 + x), |x: int| cells(row, x));
    }
    exact::lemma_same(d.b * d.t, rows, rows2);
}

/// Through attention.
pub proof fn lemma_attention<T>(m: Exact<T>, k: Back<T>, d: Dims)
    requires
        fits(m, k, d),
    ensures
        adjoint::pair(
            m,
            k.dy,
            attention::outputs(k.att, k.mask, k.scale, k.qkv, d),
            d.b * d.t * d.c,
        ) == adjoint::pair(
            m,
            attention::qkv_grads(layout::zeros((d.b * d.t * (3 * d.c)) as nat), k, d),
            k.qkv,
            d.b * d.t * (3 * d.c),
        ),
{
    let g = attention::qkv_grads(layout::zeros((d.b * d.t * (3 * d.c)) as nat), k, d);
    let (b, nh, c) = (d.b as int, d.nh as int, d.c as int);
    let n = d.b * d.t;
    let w = 3 * d.c;
    assert(0 <= n) by (nonlinear_arith)
        requires
            0 <= d.b,
            0 <= d.t,
            n == d.b * d.t,
    ;
    lemma_outputs(m, k, d);
    lemma_part(m, k, d, 0);
    lemma_part(m, k, d, 1);
    lemma_part(m, k, d, 2);
    // By heads.
    let out = |bb: int, h: int| head_of(m, k, d, bb, h).output();
    let p0 = |bb: int, h: int| fall(m, k, d, 0, bb, h);
    let p1 = |bb: int, h: int| fall(m, k, d, 1, bb, h);
    let p2 = |bb: int, h: int| fall(m, k, d, 2, bb, h);
    let p01 = |bb: int, h: int| p0(bb, h) + p1(bb, h);
    assert forall|bb: int, h: int| 0 <= bb < b && 0 <= h < nh implies #[trigger] out(bb, h)
        == p01(bb, h) + p2(bb, h) by {
        head_slopes::lemma_one_head(head_of(m, k, d, bb, h));
    }
    exact::lemma_plus2(b, nh, p0, p1, p01);
    exact::lemma_plus2(b, nh, p01, p2, out);
    // By rows.
    let f = |z: int| exact::times(m.value(g[z]), m.rate(k.qkv[z]));
    let cells = |row: int, x: int| f(row * w + x);
    exact::lemma_by_rows(n, w, f, cells);
    let whole = |row: int| exact::sum(w, |x: int| cells(row, x));
    let q0 = |row: int|
        exact::sum(
            d.nh * d.hs,
            |x: int|
                exact::times(
                    m.value(g[row * (3 * d.c) + 0 * d.c + x]),
                    m.rate(k.qkv[row * (3 * d.c) + 0 * d.c + x]),
                ),
        );
    let q1 = |row: int|
        exact::sum(
            d.nh * d.hs,
            |x: int|
                exact::times(
                    m.value(g[row * (3 * d.c) + 1 * d.c + x]),
                    m.rate(k.qkv[row * (3 * d.c) + 1 * d.c + x]),
                ),
        );
    let q2 = |row: int|
        exact::sum(
            d.nh * d.hs,
            |x: int|
                exact::times(
                    m.value(g[row * (3 * d.c) + 2 * d.c + x]),
                    m.rate(k.qkv[row * (3 * d.c) + 2 * d.c + x]),
                ),
        );
    let q01 = |row: int| q0(row) + q1(row);
    assert forall|row: int| 0 <= row < n implies #[trigger] whole(row) == q01(row) + q2(row) by {
        let cell = |x: int| cells(row, x);
        let later = |x: int| cell(c + x);
        let last = |x: int| later(c + x);
        exact::lemma_split(c, 2 * c, cell, later);
        exact::lemma_split(c, c, later, last);
        exact::lemma_same(
            c,
            cell,
            |x: int|
                exact::times(
                    m.value(g[row * (3 * d.c) + 0 * d.c + x]),
                    m.rate(k.qkv[row * (3 * d.c) + 0 * d.c + x]),
                ),
        );
        exact::lemma_same(
            c,
            later,
            |x: int|
                exact::times(
                    m.value(g[row * (3 * d.c) + 1 * d.c + x]),
                    m.rate(k.qkv[row * (3 * d.c) + 1 * d.c + x]),
                ),
        );
        exact::lemma_same(
            c,
            last,
            |x: int|
                exact::times(
                    m.value(g[row * (3 * d.c) + 2 * d.c + x]),
                    m.rate(k.qkv[row * (3 * d.c) + 2 * d.c + x]),
                ),
        );
    }
    exact::lemma_plus(n, q0, q1, q01);
    exact::lemma_plus(n, q01, q2, whole);
}

} // verus!
