//! Gradients of matrix products and biases, in exact arithmetic.
use crate::block;
use crate::exact;
use crate::exact::Exact;
use crate::layers;
use crate::layout;
use crate::layout::R;
use crate::ops;
use crate::scalar;
use crate::scalar::Term;
use vstd::prelude::*;

verus! {

/// The gradients `g` times the rates of the first `n` numbers of `x`, added up: the rate of
/// what the gradients are gradients of.
pub open spec fn pair<T>(m: Exact<T>, g: Seq<Term<T>>, x: Seq<Term<T>>, n: int) -> real {
    exact::sum(n, |i: int| exact::times(m.value(g[i]), m.rate(x[i])))
}

/// A sum of products of rows with columns, its rate against `dy`: what falls to the rows and
/// what falls to the columns.
pub proof fn lemma_product_rule(
    rows: int,
    k: int,
    cols: int,
    dy: spec_fn(int, int) -> real,
    x: spec_fn(int, int) -> real,
    rx: spec_fn(int, int) -> real,
    w: spec_fn(int, int) -> real,
    rw: spec_fn(int, int) -> real,
)
    ensures
        exact::sum2(
            rows,
            cols,
            |r: int, o: int|
                exact::times(
                    dy(r, o),
                    exact::sum(
                        k,
                        |i: int| exact::times(rx(r, i), w(i, o)) + exact::times(x(r, i), rw(i, o)),
                    ),
                ),
        ) == exact::sum2(
            rows,
            k,
            |r: int, i: int|
                exact::times(
                    exact::sum(cols, |o: int| exact::times(dy(r, o), w(i, o))),
                    rx(r, i),
                ),
        ) + exact::sum2(
            k,
            cols,
            |i: int, o: int|
                exact::times(
                    exact::sum(rows, |r: int| exact::times(dy(r, o), x(r, i))),
                    rw(i, o),
                ),
        ),
{
    let whole = |r: int, o: int|
        exact::times(
            dy(r, o),
            exact::sum(
                k,
                |i: int| exact::times(rx(r, i), w(i, o)) + exact::times(x(r, i), rw(i, o)),
            ),
        );
    let f3 = |r: int, o: int, i: int| exact::times(exact::times(dy(r, o), w(i, o)), rx(r, i));
    let g3 = |r: int, o: int, i: int| exact::times(exact::times(dy(r, o), x(r, i)), rw(i, o));
    let first = |r: int, o: int| exact::sum(k, |i: int| f3(r, o, i));
    let second = |r: int, o: int| exact::sum(k, |i: int| g3(r, o, i));
    assert forall|r: int, o: int| 0 <= r < rows && 0 <= o < cols implies #[trigger] whole(r, o)
        == first(r, o) + second(r, o) by {
        let d = dy(r, o);
        let f = |i: int| f3(r, o, i);
        let g = |i: int| g3(r, o, i);
        let p = |i: int| exact::times(rx(r, i), w(i, o)) + exact::times(x(r, i), rw(i, o));
        let h = |i: int| exact::times(d, p(i));
        exact::lemma_scaled(k, d, p, h);
        assert forall|i: int| 0 <= i < k implies #[trigger] h(i) == f(i) + g(i) by {
            lemma_spread(d, rx(r, i), w(i, o), x(r, i), rw(i, o));
        }
        exact::lemma_plus(k, f, g, h);
    }
    exact::lemma_plus2(rows, cols, first, second, whole);
    lemma_to_rows(rows, k, cols, dy, w, rx, f3);
    lemma_to_columns(rows, k, cols, dy, x, rw, g3);
}

/// `d * (a * b + c * e)`, spread out.
proof fn lemma_spread(d: real, a: real, b: real, c: real, e: real)
    ensures
        exact::times(d, exact::times(a, b) + exact::times(c, e)) == exact::times(
            exact::times(d, b),
            a,
        ) + exact::times(exact::times(d, c), e),
{
    exact::lemma_distributes(d, exact::times(a, b), exact::times(c, e));
    exact::lemma_commutes(a, b);
    exact::lemma_associates(d, b, a);
    exact::lemma_associates(d, c, e);
}

proof fn lemma_to_rows(
    rows: int,
    k: int,
    cols: int,
    dy: spec_fn(int, int) -> real,
    w: spec_fn(int, int) -> real,
    rx: spec_fn(int, int) -> real,
    f3: spec_fn(int, int, int) -> real,
)
    requires
        forall|r: int, o: int, i: int| #[trigger]
            f3(r, o, i) == exact::times(exact::times(dy(r, o), w(i, o)), rx(r, i)),
    ensures
        exact::sum2(rows, cols, |r: int, o: int| exact::sum(k, |i: int| f3(r, o, i)))
            == exact::sum2(
            rows,
            k,
            |r: int, i: int|
                exact::times(
                    exact::sum(cols, |o: int| exact::times(dy(r, o), w(i, o))),
                    rx(r, i),
                ),
        ),
{
    let first = |r: int, o: int| exact::sum(k, |i: int| f3(r, o, i));
    let left = |r: int, i: int|
        exact::times(exact::sum(cols, |o: int| exact::times(dy(r, o), w(i, o))), rx(r, i));
    let lx = |r: int| exact::sum(cols, |o: int| first(r, o));
    let ly = |r: int| exact::sum(k, |i: int| left(r, i));
    assert forall|r: int| 0 <= r < rows implies #[trigger] lx(r) == ly(r) by {
        let f = |o: int, i: int| f3(r, o, i);
        let g = |i: int, o: int| f3(r, o, i);
        exact::lemma_swapped(cols, k, f, g);
        let a = |o: int| exact::sum(k, |i: int| f(o, i));
        let b = |o: int| first(r, o);
        assert forall|o: int| 0 <= o < cols implies #[trigger] a(o) == b(o) by {
            exact::lemma_same(k, |i: int| f(o, i), |i: int| f3(r, o, i));
        }
        exact::lemma_same(cols, a, b);
        let c = |i: int| exact::sum(cols, |o: int| g(i, o));
        let e = |i: int| left(r, i);
        assert forall|i: int| 0 <= i < k implies #[trigger] c(i) == e(i) by {
            let p = |o: int| exact::times(dy(r, o), w(i, o));
            let q = |o: int| g(i, o);
            let z = rx(r, i);
            assert forall|o: int| 0 <= o < cols implies #[trigger] q(o) == exact::times(
                z,
                p(o),
            ) by {
                exact::lemma_commutes(p(o), z);
            }
            exact::lemma_scaled(cols, z, p, q);
            exact::lemma_commutes(z, exact::sum(cols, p));
        }
        exact::lemma_same(k, c, e);
    }
    exact::lemma_same(rows, lx, ly);
}

proof fn lemma_to_columns(
    rows: int,
    k: int,
    cols: int,
    dy: spec_fn(int, int) -> real,
    x: spec_fn(int, int) -> real,
    rw: spec_fn(int, int) -> real,
    g3: spec_fn(int, int, int) -> real,
)
    requires
        forall|r: int, o: int, i: int| #[trigger]
            g3(r, o, i) == exact::times(exact::times(dy(r, o), x(r, i)), rw(i, o)),
    ensures
        exact::sum2(rows, cols, |r: int, o: int| exact::sum(k, |i: int| g3(r, o, i)))
            == exact::sum2(
            k,
            cols,
            |i: int, o: int|
                exact::times(
                    exact::sum(rows, |r: int| exact::times(dy(r, o), x(r, i))),
                    rw(i, o),
                ),
        ),
{
    let second = |r: int, o: int| exact::sum(k, |i: int| g3(r, o, i));
    let right = |i: int, o: int|
        exact::times(exact::sum(rows, |r: int| exact::times(dy(r, o), x(r, i))), rw(i, o));
    let turned = |o: int, r: int| second(r, o);
    exact::lemma_swapped(rows, cols, second, turned);
    let lx = |o: int| exact::sum(rows, |r: int| turned(o, r));
    let ly = |o: int| exact::sum(k, |i: int| right(i, o));
    assert forall|o: int| 0 <= o < cols implies #[trigger] lx(o) == ly(o) by {
        let f = |r: int, i: int| g3(r, o, i);
        let g = |i: int, r: int| g3(r, o, i);
        exact::lemma_swapped(rows, k, f, g);
        let a = |r: int| exact::sum(k, |i: int| f(r, i));
        let b = |r: int| turned(o, r);
        assert forall|r: int| 0 <= r < rows implies #[trigger] a(r) == b(r) by {
            exact::lemma_same(k, |i: int| f(r, i), |i: int| g3(r, o, i));
        }
        exact::lemma_same(rows, a, b);
        let c = |i: int| exact::sum(rows, |r: int| g(i, r));
        let e = |i: int| right(i, o);
        assert forall|i: int| 0 <= i < k implies #[trigger] c(i) == e(i) by {
            let p = |r: int| exact::times(dy(r, o), x(r, i));
            let q = |r: int| g(i, r);
            let z = rw(i, o);
            assert forall|r: int| 0 <= r < rows implies #[trigger] q(r) == exact::times(
                z,
                p(r),
            ) by {
                exact::lemma_commutes(p(r), z);
            }
            exact::lemma_scaled(rows, z, p, q);
            exact::lemma_commutes(z, exact::sum(rows, p));
        }
        exact::lemma_same(k, c, e);
    }
    exact::lemma_same(cols, lx, ly);
    let back = |o: int, i: int| right(i, o);
    exact::lemma_swapped(k, cols, right, back);
    let bx = |o: int| exact::sum(k, |i: int| back(o, i));
    assert forall|o: int| 0 <= o < cols implies #[trigger] bx(o) == ly(o) by {
        exact::lemma_same(k, |i: int| back(o, i), |i: int| right(i, o));
    }
    exact::lemma_same(cols, bx, ly);
}

/// A product: its value and its rate.
pub proof fn lemma_product<T>(m: Exact<T>, a: Term<T>, b: Term<T>)
    ensures
        m.value(scalar::product(a, b)) == exact::times(m.value(a), m.value(b)),
        m.rate(scalar::product(a, b)) == exact::times(m.rate(a), m.value(b)) + exact::times(
            m.value(a),
            m.rate(b),
        ),
{
}

/// An entry of a matrix product: its value and its rate.
pub proof fn lemma_nn_entry<T>(
    m: Exact<T>,
    s: Term<T>,
    a: Seq<Term<T>>,
    b: Seq<Term<T>>,
    r: int,
    o: int,
    k: int,
    cols: int,
    n: nat,
)
    ensures
        m.value(ops::nn_entry(s, a, b, r, o, k, cols, n)) == m.value(s) + exact::sum(
            n as int,
            |i: int| exact::times(m.value(a[r * k + i]), m.value(b[i * cols + o])),
        ),
        m.rate(ops::nn_entry(s, a, b, r, o, k, cols, n)) == m.rate(s) + exact::sum(
            n as int,
            |i: int|
                exact::times(m.rate(a[r * k + i]), m.value(b[i * cols + o])) + exact::times(
                    m.value(a[r * k + i]),
                    m.rate(b[i * cols + o]),
                ),
        ),
    decreases n,
{
    if n > 0 {
        lemma_nn_entry(m, s, a, b, r, o, k, cols, (n - 1) as nat);
    }
}

/// A sum of products: its value and its rate.
pub proof fn lemma_dot<T>(
    m: Exact<T>,
    a: Seq<Term<T>>,
    b: Seq<Term<T>>,
    ai: int,
    bi: int,
    n: nat,
)
    requires
        m.ok(),
    ensures
        m.value(ops::dot(a, b, ai, bi, n)) == exact::sum(
            n as int,
            |i: int| exact::times(m.value(a[ai + i]), m.value(b[bi + i])),
        ),
        m.rate(ops::dot(a, b, ai, bi, n)) == exact::sum(
            n as int,
            |i: int|
                exact::times(m.rate(a[ai + i]), m.value(b[bi + i])) + exact::times(
                    m.value(a[ai + i]),
                    m.rate(b[bi + i]),
                ),
        ),
    decreases n,
{
    if n > 0 {
        lemma_dot(m, a, b, ai, bi, (n - 1) as nat);
        lemma_product(m, a[ai + (n - 1)], b[bi + (n - 1)]);
    }
}

pub proof fn lemma_tn_entry<T>(
    m: Exact<T>,
    s: Term<T>,
    a: Seq<Term<T>>,
    b: Seq<Term<T>>,
    i: int,
    o: int,
    k: int,
    cols: int,
    n: nat,
)
    ensures
        m.value(ops::tn_entry(s, a, b, i, o, k, cols, n)) == m.value(s) + exact::sum(
            n as int,
            |r: int| exact::times(m.value(b[r * cols + o]), m.value(a[r * k + i])),
        ),
    decreases n,
{
    if n > 0 {
        lemma_tn_entry(m, s, a, b, i, o, k, cols, (n - 1) as nat);
    }
}

pub proof fn lemma_column_sum<T>(m: Exact<T>, x: Seq<Term<T>>, c: int, d: int, n: nat)
    requires
        m.ok(),
    ensures
        m.value(layers::column_sum(x, c, d, n)) == exact::sum(
            n as int,
            |r: int| m.value(x[r * c + d]),
        ),
    decreases n,
{
    if n > 0 {
        lemma_column_sum(m, x, c, d, (n - 1) as nat);
    }
}

/// Gradients to which something is added within one stretch.
pub proof fn lemma_added<T>(
    m: Exact<T>,
    g0: Seq<Term<T>>,
    g1: Seq<Term<T>>,
    params: Seq<Term<T>>,
    n: int,
    off: int,
    len: int,
    more: spec_fn(int) -> real,
)
    requires
        0 <= off,
        0 <= len,
        off + len <= n,
        forall|p: int|
            0 <= p < n ==> m.value(#[trigger] g1[p]) == m.value(g0[p]) + if off <= p < off + len {
                more(p - off)
            } else {
                0real
            },
    ensures
        pair(m, g1, params, n) == pair(m, g0, params, n) + exact::sum(
            len,
            |z: int| exact::times(more(z), m.rate(params[off + z])),
        ),
{
    let f = |p: int| exact::times(m.value(g0[p]), m.rate(params[p]));
    let h = |p: int| exact::times(m.value(g1[p]), m.rate(params[p]));
    let g = |p: int|
        exact::times(
            if off <= p < off + len {
                more(p - off)
            } else {
                0real
            },
            m.rate(params[p]),
        );
    assert forall|p: int| 0 <= p < n implies #[trigger] h(p) == f(p) + g(p) by {
        assert(m.value(g1[p]) == m.value(g0[p]) + if off <= p < off + len {
            more(p - off)
        } else {
            0real
        });
        let a = m.value(g0[p]);
        let b = m.value(g1[p]) - a;
        exact::lemma_distributes(m.rate(params[p]), a, b);
    }
    exact::lemma_plus(n, f, g, h);
    let inner = |z: int| exact::times(more(z), m.rate(params[off + z]));
    let tail = |i: int| g(off + i);
    exact::lemma_split(off, n - off, g, tail);
    assert forall|p: int| 0 <= p < off implies #[trigger] g(p) == 0real by {
        exact::lemma_units(m.rate(params[p]));
    }
    exact::lemma_none(off, g);
    let end = |i: int| tail(len + i);
    exact::lemma_split(len, n - off - len, tail, end);
    assert forall|i: int| 0 <= i < n - off - len implies #[trigger] end(i) == 0real by {
        exact::lemma_units(m.rate(params[off + (len + i)]));
    }
    exact::lemma_none(n - off - len, end);
    exact::lemma_same(len, tail, inner);
}

/// What a matrix product adds to the gradient of its matrix at place `z`.
pub open spec fn matrix_grad<T>(
    m: Exact<T>,
    x: Seq<Term<T>>,
    dy: Seq<Term<T>>,
    rows: int,
    k: int,
    cols: int,
    z: int,
) -> real {
    exact::sum(
        rows,
        |r: int| exact::times(m.value(dy[r * cols + z % cols]), m.value(x[r * k + z / cols])),
    )
}

/// Through a matrix: the rate of the product against `dy` falls to its input, against the way
/// back of `dy`, and to the matrix, against its gradient.
proof fn lemma_matrix<T>(
    m: Exact<T>,
    x: Seq<Term<T>>,
    w: Seq<Term<T>>,
    dy: Seq<Term<T>>,
    rows: int,
    k: int,
    cols: int,
)
    requires
        m.ok(),
        0 <= rows,
        0 <= k,
        0 <= cols,
    ensures
        pair(
            m,
            dy,
            ops::nn(layout::zeros((rows * cols) as nat), x, w, rows, k, cols),
            rows * cols,
        ) == pair(m, block::back_linear(dy, w, rows, cols, k), x, rows * k) + exact::sum(
            k * cols,
            |z: int| exact::times(matrix_grad(m, x, dy, rows, k, cols, z), m.rate(w[z])),
        ),
{
    let y = ops::nn(layout::zeros((rows * cols) as nat), x, w, rows, k, cols);
    let dx = block::back_linear(dy, w, rows, cols, k);
    let fdy = |r: int, o: int| m.value(dy[r * cols + o]);
    let fx = |r: int, i: int| m.value(x[r * k + i]);
    let frx = |r: int, i: int| m.rate(x[r * k + i]);
    let fw = |i: int, o: int| m.value(w[i * cols + o]);
    let frw = |i: int, o: int| m.rate(w[i * cols + o]);
    lemma_product_rule(rows, k, cols, fdy, fx, frx, fw, frw);
    assert(0 <= rows * cols && 0 <= rows * k && 0 <= k * cols) by (nonlinear_arith)
        requires
            0 <= rows,
            0 <= k,
            0 <= cols,
    ;
    // The product.
    let whole = |r: int, o: int|
        exact::times(
            fdy(r, o),
            exact::sum(
                k,
                |i: int| exact::times(frx(r, i), fw(i, o)) + exact::times(fx(r, i), frw(i, o)),
            ),
        );
    let flat = |z: int| exact::times(m.value(dy[z]), m.rate(y[z]));
    assert forall|r: int, o: int| 0 <= r < rows && 0 <= o < cols implies #[trigger] whole(r, o)
        == flat(r * cols + o) by {
        let z = r * cols + o;
        ops::lemma_cell(r, cols, o);
        ops::lemma_row_end(r, rows, cols);
        lemma_nn_entry(m, scalar::zero(), x, w, r, o, k, cols, k as nat);
        exact::lemma_same(
            k,
            |i: int|
                exact::times(m.rate(x[r * k + i]), m.value(w[i * cols + o])) + exact::times(
                    m.value(x[r * k + i]),
                    m.rate(w[i * cols + o]),
                ),
            |i: int| exact::times(frx(r, i), fw(i, o)) + exact::times(fx(r, i), frw(i, o)),
        );
    }
    exact::lemma_by_rows(rows, cols, flat, whole);
    // The input.
    let left = |r: int, i: int|
        exact::times(exact::sum(cols, |o: int| exact::times(fdy(r, o), fw(i, o))), frx(r, i));
    let lflat = |z: int| exact::times(m.value(dx[z]), m.rate(x[z]));
    assert forall|r: int, i: int| 0 <= r < rows && 0 <= i < k implies #[trigger] left(r, i)
        == lflat(r * k + i) by {
        ops::lemma_cell(r, k, i);
        ops::lemma_row_end(r, rows, k);
        lemma_dot(m, dy, w, r * cols, i * cols, cols as nat);
        assert(m.value(scalar::zero()) == 0real);
        assert(m.value(dx[r * k + i]) == m.value(ops::dot(dy, w, r * cols, i * cols, cols as nat)));
        exact::lemma_same(
            cols,
            |o: int| exact::times(m.value(dy[r * cols + o]), m.value(w[i * cols + o])),
            |o: int| exact::times(fdy(r, o), fw(i, o)),
        );
    }
    exact::lemma_by_rows(rows, k, lflat, left);
    // The matrix.
    let right = |i: int, o: int|
        exact::times(exact::sum(rows, |r: int| exact::times(fdy(r, o), fx(r, i))), frw(i, o));
    let rflat = |z: int| exact::times(matrix_grad(m, x, dy, rows, k, cols, z), m.rate(w[z]));
    assert forall|i: int, o: int| 0 <= i < k && 0 <= o < cols implies #[trigger] right(i, o)
        == rflat(i * cols + o) by {
        let z = i * cols + o;
        ops::lemma_cell(i, cols, o);
        exact::lemma_same(
            rows,
            |r: int|
                exact::times(m.value(dy[r * cols + z % cols]), m.value(x[r * k + z / cols])),
            |r: int| exact::times(fdy(r, o), fx(r, i)),
        );
    }
    exact::lemma_by_rows(k, cols, rflat, right);
}

/// Through a bias: the rate of what it was added to against `dy` falls to that and to the bias.
pub proof fn lemma_bias<T>(
    m: Exact<T>,
    y: Seq<Term<T>>,
    b: Seq<Term<T>>,
    dy: Seq<Term<T>>,
    rows: int,
    cols: int,
)
    requires
        0 <= rows,
        0 <= cols,
        y.len() == rows * cols,
    ensures
        pair(m, dy, ops::biased(y, b, rows, cols), rows * cols) == pair(m, dy, y, rows * cols)
            + exact::sum(
            cols,
            |o: int|
                exact::times(exact::sum(rows, |r: int| m.value(dy[r * cols + o])), m.rate(b[o])),
        ),
{
    let z = ops::biased(y, b, rows, cols);
    let n = rows * cols;
    let h = |x: int| exact::times(m.value(dy[x]), m.rate(z[x]));
    let f = |x: int| exact::times(m.value(dy[x]), m.rate(y[x]));
    let g = |x: int| exact::times(m.value(dy[x]), m.rate(b[x % cols]));
    assert forall|x: int| 0 <= x < n implies #[trigger] h(x) == f(x) + g(x) by {
        assert(z[x] == scalar::sum(y[x], b[x % cols]));
        exact::lemma_distributes(m.value(dy[x]), m.rate(y[x]), m.rate(b[x % cols]));
    }
    exact::lemma_plus(n, f, g, h);
    let g2 = |r: int, o: int| exact::times(m.value(dy[r * cols + o]), m.rate(b[o]));
    assert forall|r: int, o: int| 0 <= r < rows && 0 <= o < cols implies #[trigger] g2(r, o) == g(
        r * cols + o,
    ) by {
        ops::lemma_cell(r, cols, o);
    }
    exact::lemma_by_rows(rows, cols, g, g2);
    let t2 = |o: int, r: int| g2(r, o);
    exact::lemma_swapped(rows, cols, g2, t2);
    let p = |o: int| exact::sum(rows, |r: int| t2(o, r));
    let q = |o: int|
        exact::times(exact::sum(rows, |r: int| m.value(dy[r * cols + o])), m.rate(b[o]));
    assert forall|o: int| 0 <= o < cols implies #[trigger] p(o) == q(o) by {
        let u = |r: int| m.value(dy[r * cols + o]);
        let v = |r: int| t2(o, r);
        let c = m.rate(b[o]);
        assert forall|r: int| 0 <= r < rows implies #[trigger] v(r) == exact::times(c, u(r)) by {
            exact::lemma_commutes(c, u(r));
        }
        exact::lemma_scaled(rows, c, u, v);
        exact::lemma_commutes(c, exact::sum(rows, u));
    }
    exact::lemma_same(cols, p, q);
}

/// Through a matrix and its bias.
pub proof fn lemma_linear<T>(
    m: Exact<T>,
    params: Seq<Term<T>>,
    grads: Seq<Term<T>>,
    w: R,
    b: Option<R>,
    x: Seq<Term<T>>,
    dy: Seq<Term<T>>,
    rows: int,
    k: int,
    cols: int,
)
    requires
        m.ok(),
        0 <= rows,
        0 <= k,
        0 <= cols,
        grads.len() == params.len(),
        w.len == k * cols,
        w.off + w.len <= params.len(),
        b matches Some(r) ==> r.len == cols && r.off + r.len <= params.len(),
    ensures
        block::linear_grads(grads, w, b, x, dy, rows, k, cols).len() == grads.len(),
        pair(
            m,
            dy,
            block::linear(
                x,
                block::region(params, w),
                block::opt_region(params, b),
                rows,
                k,
                cols,
            ),
            rows * cols,
        ) + pair(m, grads, params, params.len() as int) == pair(
            m,
            block::back_linear(dy, block::region(params, w), rows, cols, k),
            x,
            rows * k,
        ) + pair(
            m,
            block::linear_grads(grads, w, b, x, dy, rows, k, cols),
            params,
            params.len() as int,
        ),
{
    let n = params.len() as int;
    let wr = block::region(params, w);
    assert(0 <= rows * cols && 0 <= k * cols) by (nonlinear_arith)
        requires
            0 <= rows,
            0 <= k,
            0 <= cols,
    ;
    lemma_matrix(m, x, wr, dy, rows, k, cols);
    lemma_weight_grads(m, params, grads, w, x, dy, rows, k, cols);
    let g1 = block::weight_grads(grads, w, x, dy, rows, k, cols);
    if let Some(r) = b {
        let y = ops::nn(layout::zeros((rows * cols) as nat), x, wr, rows, k, cols);
        let br = block::region(params, r);
        lemma_bias(m, y, br, dy, rows, cols);
        let g2 = layers::bias_grads(g1, dy, r.off as int, rows, cols);
        let more = |o: int| exact::sum(rows, |q: int| m.value(dy[q * cols + o]));
        assert forall|p: int| 0 <= p < n implies m.value(#[trigger] g2[p]) == m.value(g1[p])
            + if r.off <= p < r.off + cols {
            more(p - r.off)
        } else {
            0real
        } by {
            if r.off <= p < r.off + cols {
                lemma_column_sum(m, dy, cols, p - r.off, rows as nat);
            }
        }
        lemma_added(m, g1, g2, params, n, r.off as int, cols, more);
        exact::lemma_same(
            cols,
            |o: int|
                exact::times(exact::sum(rows, |q: int| m.value(dy[q * cols + o])), m.rate(br[o])),
            |z: int| exact::times(more(z), m.rate(params[r.off + z])),
        );
    }
}

/// What a matrix product adds to the gradients.
pub proof fn lemma_weight_grads<T>(
    m: Exact<T>,
    params: Seq<Term<T>>,
    grads: Seq<Term<T>>,
    w: R,
    x: Seq<Term<T>>,
    dy: Seq<Term<T>>,
    rows: int,
    k: int,
    cols: int,
)
    requires
        m.ok(),
        0 <= rows,
        0 <= k,
        0 <= cols,
        grads.len() == params.len(),
        w.len == k * cols,
        w.off + w.len <= params.len(),
    ensures
        block::weight_grads(grads, w, x, dy, rows, k, cols).len() == grads.len(),
        pair(
            m,
            block::weight_grads(grads, w, x, dy, rows, k, cols),
            params,
            params.len() as int,
        ) == pair(m, grads, params, params.len() as int) + exact::sum(
            k * cols,
            |z: int|
                exact::times(
                    matrix_grad(m, x, dy, rows, k, cols, z),
                    m.rate(block::region(params, w)[z]),
                ),
        ),
{
    let n = params.len() as int;
    let g1 = block::weight_grads(grads, w, x, dy, rows, k, cols);
    let more = |z: int| matrix_grad(m, x, dy, rows, k, cols, z);
    let part = block::region(grads, w);
    let off = w.off as int;
    let len = w.len as int;
    assert forall|p: int| 0 <= p < n implies m.value(#[trigger] g1[p]) == m.value(grads[p])
        + if off <= p < off + len {
        more(p - off)
    } else {
        0real
    } by {
        if off <= p < off + len {
            let z = p - off;
            assert(g1[p] == ops::tn(part, x, dy, rows, k, cols)[z]);
            lemma_tn_entry(m, part[z], x, dy, z / cols, z % cols, k, cols, rows as nat);
        }
    }
    lemma_added(m, grads, g1, params, n, off, len, more);
    exact::lemma_same(
        len,
        |z: int| exact::times(more(z), m.rate(params[off + z])),
        |z: int|
            exact::times(
                matrix_grad(m, x, dy, rows, k, cols, z),
                m.rate(block::region(params, w)[z]),
            ),
    );
}

} // verus!
