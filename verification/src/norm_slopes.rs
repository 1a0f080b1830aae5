//! The gradient of layer normalisation, in exact arithmetic.
use crate::adjoint;
use crate::block;
use crate::exact;
use crate::exact::Exact;
use crate::layers;
use crate::layers::Norm;
use crate::layout::LayerR;
use crate::ops;
use crate::scalar;
use crate::scalar::{Term, Unary};
use vstd::prelude::*;

verus! {

/// A quotient by a count: its value and its rate.
pub proof fn lemma_over_count<T>(m: Exact<T>, a: Term<T>, n: usize)
    requires
        n >= 1,
    ensures
        exact::times(m.value(scalar::quotient(a, Term::Count(n))), n as real) == m.value(a),
        exact::times(m.rate(scalar::quotient(a, Term::Count(n))), n as real) == m.rate(a),
{
    let y = n as real;
    let count = Term::<T>::Count(n);
    assert(m.value(count) == y && m.rate(count) == 0real);
    assert(y != 0real);
    exact::lemma_divides(m.value(a), y);
    exact::lemma_units(m.value(a));
    exact::lemma_not_zero(y, y);
    let q = m.rate(scalar::quotient(a, count));
    assert(q == exact::over(
        exact::times(m.rate(a), y) - exact::times(m.value(a), 0real),
        exact::times(y, y),
    ));
    exact::lemma_divides(exact::times(m.rate(a), y), exact::times(y, y));
    exact::lemma_associates(q, y, y);
    exact::lemma_cancels(exact::times(q, y), m.rate(a), y);
}

/// A sum: its value and its rate.
pub proof fn lemma_total<T>(m: Exact<T>, x: Seq<Term<T>>, n: nat)
    requires
        m.ok(),
    ensures
        m.value(ops::total(x, n)) == exact::sum(n as int, |i: int| m.value(x[i])),
        m.rate(ops::total(x, n)) == exact::sum(n as int, |i: int| m.rate(x[i])),
    decreases n,
{
    if n > 0 {
        lemma_total(m, x, (n - 1) as nat);
    }
}

pub proof fn lemma_deviations<T>(m: Exact<T>, x: Seq<Term<T>>, mu: Term<T>, n: nat)
    requires
        m.ok(),
    ensures
        m.value(layers::deviations(x, mu, n)) == exact::sum(
            n as int,
            |d: int|
                exact::times(m.value(x[d]) - m.value(mu), m.value(x[d]) - m.value(mu)),
        ),
        m.rate(layers::deviations(x, mu, n)) == exact::sum(
            n as int,
            |d: int|
                exact::times(m.rate(x[d]) - m.rate(mu), m.value(x[d]) - m.value(mu)) + exact::times(
                    m.value(x[d]) - m.value(mu),
                    m.rate(x[d]) - m.rate(mu),
                ),
        ),
    decreases n,
{
    if n > 0 {
        lemma_deviations(m, x, mu, (n - 1) as nat);
        let d = scalar::difference(x[n - 1], mu);
        adjoint::lemma_product(m, d, d);
        assert(m.value(d) == m.value(x[n - 1]) - m.value(mu));
        assert(m.rate(d) == m.rate(x[n - 1]) - m.rate(mu));
    }
}

/// The rate `w` of one over the root `s` of a number that changes at the rate `v`.
proof fn lemma_root_rate(s: real, sl: real, r: real, w: real, v: real, a: real, n: real)
    requires
        s > 0real,
        2real * exact::times(s, sl) == 1real,
        exact::times(r, s) == 1real,
        exact::times(w, exact::times(s, s)) == -exact::times(sl, v),
        exact::times(v, n) == a + a,
    ensures
        exact::times(w, n) == -exact::times(exact::times(r, exact::times(r, r)), a),
{
    // Twice the slope is one over the root.
    exact::lemma_distributes(s, sl, sl);
    exact::lemma_commutes(s, sl + sl);
    exact::lemma_cancels(sl + sl, r, s);
    // The rate, freed of the root.
    let q = exact::times(w, exact::times(s, s));
    exact::lemma_associates(w, s, s);
    exact::lemma_associates(exact::times(w, s), s, r);
    exact::lemma_commutes(s, r);
    exact::lemma_units(exact::times(w, s));
    assert(exact::times(q, r) == exact::times(w, s));
    exact::lemma_associates(w, s, r);
    exact::lemma_units(w);
    assert(exact::times(exact::times(q, r), r) == w);
    let p = exact::times(sl, v);
    exact::lemma_negates(p, r);
    exact::lemma_negates(exact::times(p, r), r);
    assert(w == -exact::times(exact::times(p, r), r));
    // Times the count, twice.
    let pr = exact::times(p, r);
    exact::lemma_negates(exact::times(pr, r), n);
    exact::lemma_swaps(pr, r, n);
    exact::lemma_swaps(p, r, n);
    exact::lemma_associates(sl, v, n);
    exact::lemma_distributes(sl, a, a);
    let z = exact::times(sl, a);
    exact::lemma_distributes(a, sl, sl);
    assert(z + z == exact::times(r, a));
    exact::lemma_distributes(r, z, z);
    exact::lemma_distributes(r, exact::times(z, r), exact::times(z, r));
    assert(exact::times(w, n) == -exact::times(exact::times(exact::times(r, a), r), r));
    exact::lemma_swaps(r, a, r);
    exact::lemma_swaps(exact::times(r, r), a, r);
    exact::lemma_associates(r, r, r);
}

/// One row of a normalisation: what the gradients `h` behind its scale make of the rates `p`
/// of its input.
proof fn lemma_row(
    c: int,
    h: spec_fn(int) -> real,
    e: spec_fn(int) -> real,
    p: spec_fn(int) -> real,
    r: real,
    w: real,
    q: real,
    m1: real,
    m2: real,
)
    requires
        c >= 1,
        exact::times(q, c as real) == exact::sum(c, p),
        exact::times(m1, c as real) == exact::sum(c, h),
        exact::times(m2, c as real) == exact::sum(
            c,
            |d: int| exact::times(h(d), exact::times(e(d), r)),
        ),
        exact::times(w, c as real) == -exact::times(
            exact::times(r, exact::times(r, r)),
            exact::sum(c, |d: int| exact::times(e(d), p(d))),
        ),
    ensures
        exact::sum(
            c,
            |d: int| exact::times(h(d), exact::times(p(d) - q, r) + exact::times(e(d), w)),
        ) == exact::sum(
            c,
            |d: int|
                exact::times(
                    exact::times(r, h(d) - m1 - exact::times(exact::times(e(d), r), m2)),
                    p(d),
                ),
        ),
{
    let n = c as real;
    let hp = |d: int| exact::times(h(d), p(d));
    let he = |d: int| exact::times(h(d), e(d));
    let ep = |d: int| exact::times(e(d), p(d));
    let (shp, she, sep, sp, sh) = (
        exact::sum(c, hp),
        exact::sum(c, he),
        exact::sum(c, ep),
        exact::sum(c, p),
        exact::sum(c, h),
    );
    // The left side.
    let f = |d: int| exact::times(h(d), exact::times(p(d) - q, r) + exact::times(e(d), w));
    let f1 = |d: int| exact::times(r, hp(d));
    let f2 = |d: int| exact::times(-exact::times(q, r), h(d));
    let f3 = |d: int| exact::times(w, he(d));
    let f12 = |d: int| f1(d) + f2(d);
    assert forall|d: int| 0 <= d < c implies #[trigger] f(d) == f12(d) + f3(d) by {
        let (hd, ed, pd) = (h(d), e(d), p(d));
        exact::lemma_distributes(r, pd, q);
        exact::lemma_distributes(hd, exact::times(pd - q, r), exact::times(ed, w));
        exact::lemma_distributes(hd, exact::times(pd, r), exact::times(q, r));
        exact::lemma_associates(hd, pd, r);
        exact::lemma_commutes(exact::times(hd, pd), r);
        exact::lemma_negates(exact::times(q, r), hd);
        exact::lemma_commutes(hd, exact::times(q, r));
        exact::lemma_associates(hd, ed, w);
        exact::lemma_commutes(exact::times(hd, ed), w);
    }
    exact::lemma_plus(c, f1, f2, f12);
    exact::lemma_plus(c, f12, f3, f);
    exact::lemma_scaled(c, r, hp, f1);
    exact::lemma_scaled(c, -exact::times(q, r), h, f2);
    exact::lemma_scaled(c, w, he, f3);
    // The right side.
    let g = |d: int|
        exact::times(
            exact::times(r, h(d) - m1 - exact::times(exact::times(e(d), r), m2)),
            p(d),
        );
    let k = exact::times(r, exact::times(r, m2));
    let g2 = |d: int| exact::times(-exact::times(r, m1), p(d));
    let g3 = |d: int| exact::times(-k, ep(d));
    let g12 = |d: int| f1(d) + g2(d);
    assert forall|d: int| 0 <= d < c implies #[trigger] g(d) == g12(d) + g3(d) by {
        let (hd, ed, pd) = (h(d), e(d), p(d));
        let x = exact::times(exact::times(ed, r), m2);
        exact::lemma_distributes(r, hd - m1, x);
        exact::lemma_distributes(r, hd, m1);
        let rh = exact::times(r, hd);
        let rm = exact::times(r, m1);
        let rx = exact::times(r, x);
        exact::lemma_distributes(pd, rh - rm, rx);
        exact::lemma_distributes(pd, rh, rm);
        exact::lemma_associates(r, hd, pd);
        exact::lemma_negates(rm, pd);
        // r * ((e * r) * m2) is k * e.
        exact::lemma_associates(ed, r, m2);
        exact::lemma_commutes(ed, exact::times(r, m2));
        exact::lemma_associates(r, exact::times(r, m2), ed);
        assert(rx == exact::times(k, ed));
        exact::lemma_associates(k, ed, pd);
        exact::lemma_negates(k, exact::times(ed, pd));
    }
    exact::lemma_plus(c, f1, g2, g12);
    exact::lemma_plus(c, g12, g3, g);
    exact::lemma_scaled(c, -exact::times(r, m1), p, g2);
    exact::lemma_scaled(c, -k, ep, g3);
    // The sides agree.
    exact::lemma_negates(exact::times(q, r), sh);
    exact::lemma_negates(exact::times(r, m1), sp);
    exact::lemma_negates(k, sep);
    exact::lemma_commutes(q, r);
    exact::lemma_associates(r, q, exact::times(m1, n));
    exact::lemma_associates(r, m1, exact::times(q, n));
    exact::lemma_associates(q, m1, n);
    exact::lemma_associates(m1, q, n);
    exact::lemma_commutes(q, m1);
    assert(exact::times(exact::times(q, r), sh) == exact::times(exact::times(r, m1), sp));
    let her = |d: int| exact::times(h(d), exact::times(e(d), r));
    assert forall|d: int| 0 <= d < c implies #[trigger] her(d) == exact::times(r, he(d)) by {
        exact::lemma_associates(h(d), e(d), r);
        exact::lemma_commutes(r, he(d));
    }
    exact::lemma_scaled(c, r, he, her);
    lemma_sides(r, w, m2, n, she, sep);
}

proof fn lemma_sides(r: real, w: real, m2: real, n: real, she: real, sep: real)
    requires
        n != 0real,
        exact::times(m2, n) == exact::times(r, she),
        exact::times(w, n) == -exact::times(exact::times(r, exact::times(r, r)), sep),
    ensures
        exact::times(w, she) == -exact::times(exact::times(r, exact::times(r, m2)), sep),
{
    let rr = exact::times(r, r);
    let cube = exact::times(r, rr);
    let k = exact::times(r, exact::times(r, m2));
    exact::lemma_swaps(w, she, n);
    exact::lemma_negates(exact::times(cube, sep), she);
    exact::lemma_swaps(cube, sep, she);
    // cube * she is rr * (m2 * n).
    exact::lemma_commutes(r, rr);
    exact::lemma_associates(rr, r, she);
    exact::lemma_associates(rr, m2, n);
    exact::lemma_associates(r, r, m2);
    assert(exact::times(cube, she) == exact::times(k, n));
    exact::lemma_swaps(k, n, sep);
    exact::lemma_negates(exact::times(k, sep), n);
    exact::lemma_cancels(exact::times(w, she), -exact::times(k, sep), n);
}

/// A number times a positive count is not negative.
proof fn lemma_not_negative(v: real, n: real)
    requires
        n > 0real,
        exact::times(v, n) >= 0real,
    ensures
        v >= 0real,
{
    reveal(exact::times);
    if v < 0real {
        assert(v * n < 0real) by (nonlinear_arith)
            requires
                v < 0real,
                n > 0real,
        ;
    }
}

proof fn lemma_squares(n: int, e: spec_fn(int) -> real, f: spec_fn(int) -> real)
    requires
        forall|d: int| 0 <= d < n ==> #[trigger] f(d) == exact::times(e(d), e(d)),
    ensures
        exact::sum(n, f) >= 0real,
    decreases n,
{
    if n > 0 {
        lemma_squares(n - 1, e, f);
        assert(f(n - 1) == exact::times(e(n - 1), e(n - 1)));
        exact::lemma_square(e(n - 1));
    }
}

/// Mean and inverse standard deviation of a row: their rates.
proof fn lemma_statistics<T>(m: Exact<T>, x: Seq<Term<T>>)
    requires
        m.ok(),
        1 <= x.len() <= usize::MAX,
    ensures
        ({
            let c = x.len() as int;
            let mu = layers::mean(x);
            let rs = layers::rstd(x);
            let r = m.value(rs);
            &&& exact::times(m.rate(mu), c as real) == exact::sum(c, |d: int| m.rate(x[d]))
            &&& exact::times(m.rate(rs), c as real) == -exact::times(
                exact::times(r, exact::times(r, r)),
                exact::sum(c, |d: int| exact::times(m.value(x[d]) - m.value(mu), m.rate(x[d]))),
            )
        }),
{
    let c = x.len() as int;
    let n = x.len() as usize;
    let mu = layers::mean(x);
    let total = ops::total(x, x.len());
    lemma_total(m, x, x.len());
    lemma_over_count(m, total, n);
    let (mv, mr) = (m.value(mu), m.rate(mu));
    let e = |d: int| m.value(x[d]) - mv;
    let p = |d: int| m.rate(x[d]);
    // The deviations add up to nothing.
    let xs = |d: int| m.value(x[d]);
    let less = |d: int| exact::times(-mv, 1real);
    assert forall|d: int| 0 <= d < c implies #[trigger] e(d) == xs(d) + less(d) by {
        exact::lemma_units(-mv);
    }
    exact::lemma_plus(c, xs, less, e);
    let ones = |d: int| 1real;
    exact::lemma_scaled(c, -mv, ones, less);
    lemma_ones(c, ones);
    exact::lemma_negates(mv, c as real);
    assert(exact::sum(c, e) == 0real);
    // The variance.
    let dev = layers::deviations(x, mu, x.len());
    lemma_deviations(m, x, mu, x.len());
    let sq = |d: int| exact::times(m.value(x[d]) - m.value(mu), m.value(x[d]) - m.value(mu));
    lemma_squares(c, e, sq);
    let var = layers::variance(x);
    lemma_over_count(m, dev, n);
    lemma_not_negative(m.value(var), n as real);
    // Its rate.
    let ep = |d: int| exact::times(m.value(x[d]) - m.value(mu), m.rate(x[d]));
    let a = exact::sum(c, ep);
    let de = |d: int| exact::times(e(d), p(d) - mr);
    let back = |d: int| exact::times(-mr, e(d));
    assert forall|d: int| 0 <= d < c implies #[trigger] de(d) == ep(d) + back(d) by {
        exact::lemma_distributes(e(d), p(d), mr);
        exact::lemma_negates(mr, e(d));
        exact::lemma_commutes(mr, e(d));
    }
    exact::lemma_plus(c, ep, back, de);
    exact::lemma_scaled(c, -mr, e, back);
    exact::lemma_units(-mr);
    let rdev = |d: int|
        exact::times(m.rate(x[d]) - m.rate(mu), m.value(x[d]) - m.value(mu)) + exact::times(
            m.value(x[d]) - m.value(mu),
            m.rate(x[d]) - m.rate(mu),
        );
    assert forall|d: int| 0 <= d < c implies #[trigger] rdev(d) == de(d) + de(d) by {
        exact::lemma_commutes(p(d) - mr, e(d));
    }
    exact::lemma_plus(c, de, de, rdev);
    assert(m.rate(dev) == a + a);
    // The root.
    let eps = Term::<T>::Bits(0x3727_c5ac);
    let q = scalar::sum(var, eps);
    let root = scalar::apply1(Unary::Sqrt, q);
    let one = scalar::one::<T>();
    let rs = layers::rstd(x);
    assert(m.value(eps) > 0real && m.rate(eps) == 0real);
    assert(m.value(q) > 0real && m.rate(q) == m.rate(var));
    let s = m.value(root);
    let sl = (m.slope)(Unary::Sqrt, m.value(q));
    assert(s == (m.image)(Unary::Sqrt, m.value(q)));
    assert(s > 0real && 2real * exact::times(s, sl) == 1real);
    assert(m.rate(root) == exact::times(sl, m.rate(var)));
    assert(m.value(one) == 1real && m.rate(one) == 0real);
    exact::lemma_divides(1real, s);
    exact::lemma_not_zero(s, s);
    exact::lemma_units(s);
    exact::lemma_units(m.rate(root));
    let w = m.rate(rs);
    assert(w == exact::over(
        exact::times(0real, s) - exact::times(1real, m.rate(root)),
        exact::times(s, s),
    ));
    exact::lemma_divides(-m.rate(root), exact::times(s, s));
    lemma_root_rate(s, sl, m.value(rs), w, m.rate(var), a, c as real);
}

proof fn lemma_ones(n: int, f: spec_fn(int) -> real)
    requires
        0 <= n,
        forall|d: int| 0 <= d < n ==> #[trigger] f(d) == 1real,
    ensures
        exact::sum(n, f) == n as real,
    decreases n,
{
    if n > 0 {
        lemma_ones(n - 1, f);
        assert(f(n - 1) == 1real);
    }
}

/// What a normalisation keeps for the way back.
pub open spec fn kept<T>(x: Seq<Term<T>>, g: Seq<Term<T>>, rows: int, c: int) -> Norm<T> {
    Norm { x, g, mean: layers::means(x, rows, c), rstd: layers::rstds(x, rows, c) }
}

proof fn lemma_ln_sums<T>(m: Exact<T>, dy: Seq<Term<T>>, k: Norm<T>, c: int, r: int, n: nat)
    requires
        m.ok(),
        n <= c,
    ensures
        m.value(layers::ln_sum1(dy, k.g, c, r, n)) == exact::sum(
            n as int,
            |d: int| exact::times(m.value(dy[r * c + d]), m.value(k.g[d])),
        ),
        m.value(layers::ln_sum2(dy, k, c, r, n)) == exact::sum(
            n as int,
            |d: int|
                exact::times(
                    exact::times(m.value(dy[r * c + d]), m.value(k.g[d])),
                    exact::times(m.value(k.x[r * c + d]) - m.value(k.mean[r]), m.value(k.rstd[r])),
                ),
        ),
    decreases n,
{
    if n > 0 {
        lemma_ln_sums(m, dy, k, c, r, (n - 1) as nat);
        let d = n - 1;
        let i = r * c + d;
        ops::lemma_cell(r, c, d);
        adjoint::lemma_product(m, dy[i], k.g[d]);
        let e = scalar::difference(k.x[i], k.mean[r]);
        adjoint::lemma_product(m, e, k.rstd[r]);
        assert(m.value(e) == m.value(k.x[i]) - m.value(k.mean[r]));
        adjoint::lemma_product(
            m,
            layers::dxh(dy, k.g, c, i),
            layers::xhat(k.x, k.mean, k.rstd, c, i),
        );
    }
}

proof fn lemma_scale_sum<T>(m: Exact<T>, dy: Seq<Term<T>>, k: Norm<T>, c: int, d: int, n: nat)
    requires
        m.ok(),
        0 <= d < c,
    ensures
        m.value(layers::scale_sum(dy, k, c, d, n)) == exact::sum(
            n as int,
            |r: int|
                exact::times(
                    m.value(dy[r * c + d]),
                    exact::times(m.value(k.x[r * c + d]) - m.value(k.mean[r]), m.value(k.rstd[r])),
                ),
        ),
    decreases n,
{
    if n > 0 {
        lemma_scale_sum(m, dy, k, c, d, (n - 1) as nat);
        let r = n - 1;
        let i = r * c + d;
        ops::lemma_cell(r, c, d);
        let e = scalar::difference(k.x[i], k.mean[r]);
        adjoint::lemma_product(m, e, k.rstd[r]);
        assert(m.value(e) == m.value(k.x[i]) - m.value(k.mean[r]));
        adjoint::lemma_product(m, dy[i], layers::xhat(k.x, k.mean, k.rstd, c, i));
    }
}

/// The rate of one normalised number against its gradient: what falls to the row, to the
/// scale and to the bias.
proof fn lemma_entry<T>(
    m: Exact<T>,
    dy: Term<T>,
    x: Term<T>,
    mu: Term<T>,
    rs: Term<T>,
    g: Term<T>,
)
    ensures
        ({
            let e = m.value(x) - m.value(mu);
            let v = scalar::product(scalar::product(scalar::difference(x, mu), rs), g);
            exact::times(m.value(dy), m.rate(v)) == exact::times(
                exact::times(m.value(dy), m.value(g)),
                exact::times(m.rate(x) - m.rate(mu), m.value(rs)) + exact::times(e, m.rate(rs)),
            ) + exact::times(
                exact::times(m.value(dy), exact::times(e, m.value(rs))),
                m.rate(g),
            )
        }),
{
    let d = scalar::difference(x, mu);
    let dr = scalar::product(d, rs);
    adjoint::lemma_product(m, d, rs);
    adjoint::lemma_product(m, dr, g);
    assert(m.value(d) == m.value(x) - m.value(mu));
    assert(m.rate(d) == m.rate(x) - m.rate(mu));
    let y = m.value(dy);
    exact::lemma_distributes(
        y,
        exact::times(m.rate(dr), m.value(g)),
        exact::times(m.value(dr), m.rate(g)),
    );
    exact::lemma_commutes(m.rate(dr), m.value(g));
    exact::lemma_associates(y, m.value(g), m.rate(dr));
    exact::lemma_associates(y, m.value(dr), m.rate(g));
}

/// One row of a normalisation without bias.
proof fn lemma_norm_row<T>(
    m: Exact<T>,
    dy: Seq<Term<T>>,
    x: Seq<Term<T>>,
    g: Seq<Term<T>>,
    rows: int,
    c: int,
    r: int,
)
    requires
        m.ok(),
        1 <= c <= usize::MAX,
        0 <= r < rows,
        rows * c <= x.len(),
        rows * c <= dy.len(),
    ensures
        ({
            let k = kept(x, g, rows, c);
            let plain = layers::normalised(x, g, None, rows, c);
            let dx = layers::ln_dx(dy, k, rows, c);
            exact::sum(
                c,
                |d: int| exact::times(m.value(dy[r * c + d]), m.rate(plain[r * c + d])),
            ) == exact::sum(
                c,
                |d: int| exact::times(m.value(dx[r * c + d]), m.rate(x[r * c + d])),
            ) + exact::sum(
                c,
                |d: int|
                    exact::times(
                        exact::times(
                            m.value(dy[r * c + d]),
                            exact::times(
                                m.value(x[r * c + d]) - m.value(k.mean[r]),
                                m.value(k.rstd[r]),
                            ),
                        ),
                        m.rate(g[d]),
                    ),
            )
        }),
{
    let k = kept(x, g, rows, c);
    let plain = layers::normalised(x, g, None, rows, c);
    let dx = layers::ln_dx(dy, k, rows, c);
    ops::lemma_row_end(r, rows, c);
    let xr = layers::row(x, r, c);
    assert(xr.len() == c);
    lemma_statistics(m, xr);
    let (mu, rs) = (k.mean[r], k.rstd[r]);
    let h = |d: int| exact::times(m.value(dy[r * c + d]), m.value(g[d]));
    let e = |d: int| m.value(x[r * c + d]) - m.value(mu);
    let p = |d: int| m.rate(x[r * c + d]);
    let (rv, w, q) = (m.value(rs), m.rate(rs), m.rate(mu));
    exact::lemma_same(c, |d: int| m.rate(xr[d]), p);
    exact::lemma_same(
        c,
        |d: int| exact::times(m.value(xr[d]) - m.value(mu), m.rate(xr[d])),
        |d: int| exact::times(e(d), p(d)),
    );
    let count = c as usize;
    let t1 = layers::ln_sum1(dy, g, c, r, c as nat);
    let t2 = layers::ln_sum2(dy, k, c, r, c as nat);
    lemma_ln_sums(m, dy, k, c, r, c as nat);
    lemma_over_count(m, t1, count);
    lemma_over_count(m, t2, count);
    let q1 = scalar::quotient(t1, Term::Count(count));
    let q2 = scalar::quotient(t2, Term::Count(count));
    let (m1, m2) = (m.value(q1), m.value(q2));
    exact::lemma_same(
        c,
        |d: int| exact::times(m.value(dy[r * c + d]), m.value(k.g[d])),
        h,
    );
    exact::lemma_same(
        c,
        |d: int|
            exact::times(
                exact::times(m.value(dy[r * c + d]), m.value(k.g[d])),
                exact::times(m.value(k.x[r * c + d]) - m.value(k.mean[r]), m.value(k.rstd[r])),
            ),
        |d: int| exact::times(h(d), exact::times(e(d), rv)),
    );
    lemma_row(c, h, e, p, rv, w, q, m1, m2);
    // The input.
    let back = |d: int|
        exact::times(
            exact::times(rv, h(d) - m1 - exact::times(exact::times(e(d), rv), m2)),
            p(d),
        );
    let input = |d: int| exact::times(m.value(dx[r * c + d]), m.rate(x[r * c + d]));
    assert forall|d: int| 0 <= d < c implies #[trigger] input(d) == back(d) by {
        let i = r * c + d;
        ops::lemma_cell(r, c, d);
        let dh = layers::dxh(dy, g, c, i);
        let xh = layers::xhat(x, k.mean, k.rstd, c, i);
        adjoint::lemma_product(m, dy[i], g[d]);
        let de = scalar::difference(x[i], mu);
        adjoint::lemma_product(m, de, rs);
        assert(m.value(de) == e(d));
        adjoint::lemma_product(m, xh, q2);
        let d1 = scalar::difference(dh, q1);
        let d2 = scalar::difference(d1, scalar::product(xh, q2));
        assert(m.value(d1) == m.value(dh) - m1);
        assert(m.value(d2) == m.value(d1) - m.value(scalar::product(xh, q2)));
        adjoint::lemma_product(m, rs, d2);
        assert(dx[i] == scalar::product(rs, d2));
    }
    exact::lemma_same(c, input, back);
    // The output.
    let whole = |d: int| exact::times(m.value(dy[r * c + d]), m.rate(plain[r * c + d]));
    let inner = |d: int| exact::times(h(d), exact::times(p(d) - q, rv) + exact::times(e(d), w));
    let scale = |d: int|
        exact::times(
            exact::times(
                m.value(dy[r * c + d]),
                exact::times(m.value(x[r * c + d]) - m.value(k.mean[r]), m.value(k.rstd[r])),
            ),
            m.rate(g[d]),
        );
    assert forall|d: int| 0 <= d < c implies #[trigger] whole(d) == inner(d) + scale(d) by {
        let i = r * c + d;
        ops::lemma_cell(r, c, d);
        lemma_entry(m, dy[i], x[i], mu, rs, g[d]);
    }
    exact::lemma_plus(c, inner, scale, whole);
}

/// Through a normalisation without bias: what falls to the input and to the scale.
proof fn lemma_plain<T>(
    m: Exact<T>,
    dy: Seq<Term<T>>,
    x: Seq<Term<T>>,
    g: Seq<Term<T>>,
    rows: int,
    c: int,
)
    requires
        m.ok(),
        1 <= c <= usize::MAX,
        0 <= rows,
        rows * c <= x.len(),
        rows * c <= dy.len(),
    ensures
        ({
            let k = kept(x, g, rows, c);
            adjoint::pair(m, dy, layers::normalised(x, g, None, rows, c), rows * c)
                == adjoint::pair(m, layers::ln_dx(dy, k, rows, c), x, rows * c) + exact::sum(
                c,
                |d: int|
                    exact::times(
                        m.value(layers::scale_sum(dy, k, c, d, rows as nat)),
                        m.rate(g[d]),
                    ),
            )
        }),
{
    let k = kept(x, g, rows, c);
    let y = layers::normalised(x, g, None, rows, c);
    let dx = layers::ln_dx(dy, k, rows, c);
    let n = rows * c;
    let fy = |i: int| exact::times(m.value(dy[i]), m.rate(y[i]));
    let fx = |i: int| exact::times(m.value(dx[i]), m.rate(x[i]));
    let y2 = |r: int, d: int| exact::times(m.value(dy[r * c + d]), m.rate(y[r * c + d]));
    let x2 = |r: int, d: int| exact::times(m.value(dx[r * c + d]), m.rate(x[r * c + d]));
    let s2 = |r: int, d: int|
        exact::times(
            exact::times(
                m.value(dy[r * c + d]),
                exact::times(m.value(x[r * c + d]) - m.value(k.mean[r]), m.value(k.rstd[r])),
            ),
            m.rate(g[d]),
        );
    exact::lemma_by_rows(rows, c, fy, y2);
    exact::lemma_by_rows(rows, c, fx, x2);
    let ry = |r: int| exact::sum(c, |d: int| y2(r, d));
    let rx = |r: int| exact::sum(c, |d: int| x2(r, d));
    let rs = |r: int| exact::sum(c, |d: int| s2(r, d));
    assert forall|r: int| 0 <= r < rows implies #[trigger] ry(r) == rx(r) + rs(r) by {
        lemma_norm_row(m, dy, x, g, rows, c, r);
        exact::lemma_same(
            c,
            |d: int| y2(r, d),
            |d: int| exact::times(m.value(dy[r * c + d]), m.rate(y[r * c + d])),
        );
        exact::lemma_same(
            c,
            |d: int| x2(r, d),
            |d: int| exact::times(m.value(dx[r * c + d]), m.rate(x[r * c + d])),
        );
        exact::lemma_same(
            c,
            |d: int| s2(r, d),
            |d: int|
                exact::times(
                    exact::times(
                        m.value(dy[r * c + d]),
                        exact::times(
                            m.value(x[r * c + d]) - m.value(k.mean[r]),
                            m.value(k.rstd[r]),
                        ),
                    ),
                    m.rate(g[d]),
                ),
        );
    }
    exact::lemma_plus(rows, rx, rs, ry);
    let t2 = |d: int, r: int| s2(r, d);
    exact::lemma_swapped(rows, c, s2, t2);
    let a = |d: int| exact::sum(rows, |r: int| t2(d, r));
    let b = |d: int|
        exact::times(m.value(layers::scale_sum(dy, k, c, d, rows as nat)), m.rate(g[d]));
    assert forall|d: int| 0 <= d < c implies #[trigger] a(d) == b(d) by {
        lemma_scale_sum(m, dy, k, c, d, rows as nat);
        let u = |r: int|
            exact::times(
                m.value(dy[r * c + d]),
                exact::times(m.value(k.x[r * c + d]) - m.value(k.mean[r]), m.value(k.rstd[r])),
            );
        let v = |r: int| t2(d, r);
        let z = m.rate(g[d]);
        assert forall|r: int| 0 <= r < rows implies #[trigger] v(r) == exact::times(z, u(r)) by {
            exact::lemma_commutes(z, u(r));
        }
        exact::lemma_scaled(rows, z, u, v);
        exact::lemma_commutes(z, exact::sum(rows, u));
    }
    exact::lemma_same(c, a, b);
}

/// Through a normalisation.
pub proof fn lemma_norm<T>(
    m: Exact<T>,
    params: Seq<Term<T>>,
    f: block::Flow<T>,
    x: Seq<Term<T>>,
    ln: LayerR,
    rows: int,
    c: int,
)
    requires
        m.ok(),
        1 <= c <= usize::MAX,
        0 <= rows,
        rows * c <= x.len(),
        f.dx.len() == rows * c,
        f.grads.len() == params.len(),
        block::layer_fits(ln, c, params.len() as int),
    ensures
        ({
            let n = params.len() as int;
            let g = block::region(params, ln.g);
            let b = block::back_norm(f, kept(x, g, rows, c), ln, rows, c);
            &&& b.grads.len() == f.grads.len()
            &&& b.dx.len() == f.dx.len()
            &&& adjoint::pair(
                m,
                f.dx,
                layers::normalised(x, g, block::opt_region(params, ln.b), rows, c),
                rows * c,
            ) + adjoint::pair(m, f.grads, params, n) == adjoint::pair(m, b.dx, x, rows * c)
                + adjoint::pair(m, b.grads, params, n)
        }),
{
    let n = params.len() as int;
    let dy = f.dx;
    let g = block::region(params, ln.g);
    let k = kept(x, g, rows, c);
    let off = ln.g.off as int;
    let b = block::back_norm(f, k, ln, rows, c);
    assert(0 <= rows * c) by (nonlinear_arith)
        requires
            0 <= rows,
            1 <= c,
    ;
    lemma_plain(m, dy, x, g, rows, c);
    let more = |d: int| m.value(layers::scale_sum(dy, k, c, d, rows as nat));
    let mid = layers::ln_grads(f.grads, dy, k, off, false, rows, c);
    assert forall|p: int| 0 <= p < n implies m.value(#[trigger] mid[p]) == m.value(f.grads[p])
        + if off <= p < off + c {
        more(p - off)
    } else {
        0real
    } by {}
    adjoint::lemma_added(m, f.grads, mid, params, n, off, c, more);
    exact::lemma_same(
        c,
        |z: int| exact::times(more(z), m.rate(params[off + z])),
        |d: int|
            exact::times(
                m.value(layers::scale_sum(dy, k, c, d, rows as nat)),
                m.rate(g[d]),
            ),
    );
    match ln.b {
        Some(rb) => {
            let br = block::region(params, rb);
            let plain = layers::normalised(x, g, None, rows, c);
            let y = layers::normalised(x, g, Some(br), rows, c);
            assert(y =~= ops::biased(plain, br, rows, c));
            adjoint::lemma_bias(m, plain, br, dy, rows, c);
            let extra = |o: int| exact::sum(rows, |q: int| m.value(dy[q * c + o]));
            assert forall|p: int| 0 <= p < n implies m.value(#[trigger] b.grads[p]) == m.value(
                mid[p],
            ) + if rb.off <= p < rb.off + c {
                extra(p - rb.off)
            } else {
                0real
            } by {
                if rb.off <= p < rb.off + c {
                    adjoint::lemma_column_sum(m, dy, c, p - rb.off, rows as nat);
                }
            }
            adjoint::lemma_added(m, mid, b.grads, params, n, rb.off as int, c, extra);
            exact::lemma_same(
                c,
                |o: int|
                    exact::times(exact::sum(rows, |q: int| m.value(dy[q * c + o])), m.rate(br[o])),
                |z: int| exact::times(extra(z), m.rate(params[rb.off + z])),
            );
        },
        None => {
            assert(b.grads =~= mid);
        },
    }
}

} // verus!
