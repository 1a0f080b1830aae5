//! The gradients of softmax, of the loss and of the logits, in exact arithmetic.
use crate::adjoint;
use crate::backward;
use crate::block;
use crate::exact;
use crate::exact::Exact;
use crate::forward;
use crate::layers;
use crate::layout;
use crate::layout::R;
use crate::norm_slopes;
use crate::ops;
use crate::scalar;
use crate::scalar::{Binary, Term, Unary};
use vstd::prelude::*;

verus! {

/// One over a number that changes at the rate `v`: the rate of that.
proof fn lemma_inverse_rate(e: real, inv: real, w: real, v: real)
    requires
        e != 0real,
        exact::times(inv, e) == 1real,
        exact::times(w, exact::times(e, e)) == -v,
    ensures
        w == -exact::times(exact::times(v, inv), inv),
{
    let q = exact::times(w, exact::times(e, e));
    exact::lemma_associates(w, e, e);
    exact::lemma_associates(exact::times(w, e), e, inv);
    exact::lemma_commutes(e, inv);
    exact::lemma_units(exact::times(w, e));
    assert(exact::times(q, inv) == exact::times(w, e));
    exact::lemma_associates(w, e, inv);
    exact::lemma_units(w);
    exact::lemma_negates(v, inv);
    exact::lemma_negates(exact::times(v, inv), inv);
}

pub proof fn lemma_positive(n: int, f: spec_fn(int) -> real)
    requires
        n >= 1,
        forall|i: int| 0 <= i < n ==> #[trigger] f(i) > 0real,
    ensures
        exact::sum(n, f) > 0real,
    decreases n,
{
    assert(f(n - 1) > 0real);
    if n > 1 {
        lemma_positive(n - 1, f);
    } else {
        assert(exact::sum(0, f) == 0real);
    }
}

/// The product of positive numbers.
proof fn lemma_positive_product(a: real, b: real)
    requires
        a > 0real,
        b > 0real,
    ensures
        exact::times(a, b) > 0real,
{
    reveal(exact::times);
    assert(a * b > 0real) by (nonlinear_arith)
        requires
            a > 0real,
            b > 0real,
    ;
}

/// The probabilities of a softmax are positive, and each changes by how much faster its number
/// grows than the average.
pub proof fn lemma_softmax<T>(m: Exact<T>, x: Seq<Term<T>>)
    requires
        m.ok(),
        x.len() >= 1,
    ensures
        ({
            let p = ops::softmax(x);
            let n = x.len() as int;
            let mean = exact::sum(n, |k: int| exact::times(m.value(p[k]), m.rate(x[k])));
            forall|i: int|
                0 <= i < n ==> m.value(#[trigger] p[i]) > 0real && m.rate(p[i]) == exact::times(
                    m.value(p[i]),
                    m.rate(x[i]) - mean,
                )
        }),
{
    let n = x.len() as int;
    let p = ops::softmax(x);
    let e = ops::exponentials(x);
    let big = ops::largest(x, x.len());
    let total = ops::total(e, e.len());
    let one = scalar::one::<T>();
    let inverse = scalar::quotient(one, total);
    let top = m.rate(big);
    let ev = |i: int| m.value(e[i]);
    let d = |i: int| m.rate(x[i]) - top;
    assert forall|i: int| 0 <= i < n implies m.value(#[trigger] e[i]) > 0real && m.rate(e[i])
        == exact::times(m.value(e[i]), d(i)) by {
        let diff = scalar::difference(x[i], big);
        assert(e[i] == scalar::apply1(Unary::Exp, diff));
        assert(m.rate(diff) == d(i));
        assert(m.value(e[i]) == (m.image)(Unary::Exp, m.value(diff)));
        assert(m.rate(e[i]) == exact::times((m.slope)(Unary::Exp, m.value(diff)), d(i)));
    }
    norm_slopes::lemma_total(m, e, e.len());
    lemma_positive(n, |i: int| m.value(e[i]));
    let (tv, inv) = (m.value(total), m.value(inverse));
    assert(m.value(one) == 1real && m.rate(one) == 0real);
    exact::lemma_divides(1real, tv);
    exact::lemma_not_zero(tv, tv);
    exact::lemma_units(tv);
    exact::lemma_units(m.rate(total));
    let v = m.rate(total);
    let w = m.rate(inverse);
    exact::lemma_divides(-v, exact::times(tv, tv));
    lemma_inverse_rate(tv, inv, w, v);
    lemma_positive_inverse(tv, inv);
    // How fast the average grows.
    let mean = exact::sum(n, |k: int| exact::times(m.value(p[k]), m.rate(x[k])));
    let px = |k: int| exact::times(m.value(p[k]), m.rate(x[k]));
    let pv = |k: int| m.value(p[k]);
    assert forall|k: int| 0 <= k < n implies m.value(#[trigger] p[k]) == exact::times(
        m.value(e[k]),
        inv,
    ) by {
        adjoint::lemma_product(m, e[k], inverse);
        assert(p[k] == scalar::product(e[k], inverse));
    }
    let re = |k: int| m.rate(e[k]);
    let scaled = |k: int| exact::times(inv, re(k));
    exact::lemma_scaled(n, inv, re, scaled);
    let less = |k: int| exact::times(-top, pv(k));
    assert forall|k: int| 0 <= k < n implies #[trigger] scaled(k) == px(k) + less(k) by {
        let a = m.value(e[k]);
        assert(m.rate(e[k]) == exact::times(a, d(k)));
        exact::lemma_commutes(inv, exact::times(a, d(k)));
        exact::lemma_swaps(a, d(k), inv);
        exact::lemma_distributes(pv(k), m.rate(x[k]), top);
        exact::lemma_negates(top, pv(k));
        exact::lemma_commutes(top, pv(k));
    }
    exact::lemma_plus(n, px, less, scaled);
    exact::lemma_scaled(n, -top, pv, less);
    // The probabilities add up to one.
    let ie = |k: int| exact::times(inv, ev(k));
    exact::lemma_scaled(n, inv, ev, ie);
    assert forall|k: int| 0 <= k < n implies #[trigger] ie(k) == pv(k) by {
        assert(m.value(p[k]) == exact::times(m.value(e[k]), inv));
        exact::lemma_commutes(inv, ev(k));
    }
    exact::lemma_same(n, ie, pv);
    exact::lemma_units(-top);
    assert(exact::sum(n, pv) == 1real);
    exact::lemma_commutes(inv, v);
    let vi = exact::times(v, inv);
    assert(vi == mean - top);
    assert forall|i: int| 0 <= i < n implies m.value(#[trigger] p[i]) > 0real && m.rate(p[i])
        == exact::times(m.value(p[i]), m.rate(x[i]) - mean) by {
        let a = m.value(e[i]);
        assert(m.rate(e[i]) == exact::times(a, d(i)));
        assert(m.value(p[i]) == exact::times(a, inv));
        adjoint::lemma_product(m, e[i], inverse);
        assert(p[i] == scalar::product(e[i], inverse));
        lemma_positive_product(a, inv);
        exact::lemma_swaps(a, d(i), inv);
        exact::lemma_negates(a, exact::times(vi, inv));
        exact::lemma_commutes(vi, inv);
        exact::lemma_associates(a, inv, vi);
        exact::lemma_distributes(m.value(p[i]), d(i), vi);
    }
}

proof fn lemma_positive_inverse(e: real, inv: real)
    requires
        e > 0real,
        exact::times(inv, e) == 1real,
    ensures
        inv > 0real,
{
    reveal(exact::times);
    if inv <= 0real {
        assert(inv * e <= 0real) by (nonlinear_arith)
            requires
                e > 0real,
                inv <= 0real,
        ;
    }
}

/// The probability of every target is at least the least that is told from zero.
pub open spec fn told<T>(m: Exact<T>, probs: Seq<Term<T>>, targets: Seq<u32>, v: int) -> bool {
    forall|i: int|
        0 <= i < targets.len() ==> m.value(probs[i * v + #[trigger] targets[i]]) >= (m.bits)(
            0x2b8c_bccc,
        )
}

/// How fast the loss at one target grows.
spec fn target_rate<T>(
    m: Exact<T>,
    logits: Seq<Term<T>>,
    probs: Seq<Term<T>>,
    targets: Seq<u32>,
    v: int,
    i: int,
) -> real {
    exact::sum(v, |k: int| exact::times(m.value(probs[i * v + k]), m.rate(logits[i * v + k])))
        - m.rate(logits[i * v + targets[i]])
}

proof fn lemma_loss_sum<T>(
    m: Exact<T>,
    logits: Seq<Term<T>>,
    targets: Seq<u32>,
    rows: int,
    v: int,
    n: nat,
)
    requires
        m.ok(),
        1 <= v,
        n <= rows,
        targets.len() == rows,
        logits.len() == rows * v,
        forall|i: int| 0 <= i < rows ==> #[trigger] targets[i] < v,
        told(m, forward::softmax_rows(logits, rows, v), targets, v),
    ensures
        m.rate(forward::loss_sum(forward::softmax_rows(logits, rows, v), targets, v, n))
            == exact::sum(
            n as int,
            |i: int|
                target_rate(m, logits, forward::softmax_rows(logits, rows, v), targets, v, i),
        ),
    decreases n,
{
    if n > 0 {
        let probs = forward::softmax_rows(logits, rows, v);
        let i = n - 1;
        lemma_loss_sum(m, logits, targets, rows, v, i as nat);
        ops::lemma_row_end(i, rows, v);
        let row = layers::row(logits, i, v);
        let p = ops::softmax(row);
        lemma_softmax(m, row);
        let tg = targets[i] as int;
        assert(targets[i] < v);
        assert forall|k: int| 0 <= k < v implies probs[i * v + k] == #[trigger] p[k] by {
            ops::lemma_cell(i, v, k);
        }
        let pt = probs[i * v + tg];
        assert(pt == p[tg]);
        assert(m.value(pt) > 0real);
        let clamp = Term::<T>::Bits(0x2b8c_bccc);
        let held = scalar::apply2(Binary::Maximum, pt, clamp);
        assert(m.value(pt) >= m.value(clamp));
        assert(m.value(held) == m.value(pt) && m.rate(held) == m.rate(pt));
        let ln = scalar::apply1(Unary::Ln, held);
        let sl = (m.slope)(Unary::Ln, m.value(pt));
        let mean = exact::sum(v, |k: int| exact::times(m.value(p[k]), m.rate(row[k])));
        assert(m.rate(ln) == exact::times(sl, exact::times(m.value(pt), m.rate(row[tg]) - mean)));
        exact::lemma_associates(sl, m.value(pt), m.rate(row[tg]) - mean);
        exact::lemma_commutes(sl, m.value(pt));
        exact::lemma_units(m.rate(row[tg]) - mean);
        exact::lemma_same(
            v,
            |k: int| exact::times(m.value(p[k]), m.rate(row[k])),
            |k: int| exact::times(m.value(probs[i * v + k]), m.rate(logits[i * v + k])),
        );
    }
}

/// One over a count does not change.
proof fn lemma_share<T>(m: Exact<T>, n: usize)
    requires
        m.ok(),
        n >= 1,
    ensures
        m.rate(scalar::quotient(scalar::one::<T>(), Term::Count(n))) == 0real,
{
    let q = m.rate(scalar::quotient(scalar::one::<T>(), Term::Count(n)));
    norm_slopes::lemma_over_count(m, scalar::one::<T>(), n);
    exact::lemma_units(n as real);
    assert(m.rate(scalar::one::<T>()) == 0real);
    exact::lemma_cancels(q, 0real, n as real);
}

/// Through the loss: its rate is that of the logits against their gradients.
pub proof fn lemma_loss<T>(
    m: Exact<T>,
    logits: Seq<Term<T>>,
    targets: Seq<u32>,
    rows: int,
    v: int,
)
    requires
        m.ok(),
        1 <= v,
        1 <= rows <= usize::MAX,
        targets.len() == rows,
        logits.len() == rows * v,
        forall|i: int| 0 <= i < rows ==> #[trigger] targets[i] < v,
        told(m, forward::softmax_rows(logits, rows, v), targets, v),
    ensures
        ({
            let probs = forward::softmax_rows(logits, rows, v);
            m.rate(forward::loss_of(probs, targets, v, rows as nat)) == adjoint::pair(
                m,
                backward::dlogits(probs, targets, rows, v),
                logits,
                rows * v,
            )
        }),
{
    let probs = forward::softmax_rows(logits, rows, v);
    let dl = backward::dlogits(probs, targets, rows, v);
    let share = scalar::quotient(scalar::one::<T>(), Term::Count(rows as usize));
    let inv = m.value(share);
    lemma_share(m, rows as usize);
    lemma_loss_sum(m, logits, targets, rows, v, rows as nat);
    let total = forward::loss_sum(probs, targets, v, rows as nat);
    adjoint::lemma_product(m, total, share);
    exact::lemma_units(m.value(total));
    exact::lemma_commutes(m.rate(total), inv);
    let tr = |i: int| target_rate(m, logits, probs, targets, v, i);
    let part = |i: int| exact::times(inv, tr(i));
    exact::lemma_scaled(rows, inv, tr, part);
    let flat = |x: int| exact::times(m.value(dl[x]), m.rate(logits[x]));
    let d2 = |i: int, k: int| exact::times(m.value(dl[i * v + k]), m.rate(logits[i * v + k]));
    exact::lemma_by_rows(rows, v, flat, d2);
    let row = |i: int| exact::sum(v, |k: int| d2(i, k));
    assert forall|i: int| 0 <= i < rows implies #[trigger] row(i) == part(i) by {
        ops::lemma_row_end(i, rows, v);
        assert(targets[i] < v);
        let tg = targets[i] as int;
        let z = |k: int| m.rate(logits[i * v + k]);
        let pz = |k: int| exact::times(m.value(probs[i * v + k]), m.rate(logits[i * v + k]));
        let a = |k: int| exact::times(inv, pz(k));
        let b = |k: int|
            if k == tg {
                -exact::times(inv, z(k))
            } else {
                0real
            };
        let c = |k: int| d2(i, k);
        assert forall|k: int| 0 <= k < v implies #[trigger] c(k) == a(k) + b(k) by {
            ops::lemma_cell(i, v, k);
            let x = i * v + k;
            let p = scalar::product(probs[x], share);
            adjoint::lemma_product(m, probs[x], share);
            exact::lemma_commutes(m.value(probs[x]), inv);
            exact::lemma_associates(inv, m.value(probs[x]), z(k));
            assert(dl[x] == if k == tg {
                scalar::difference(p, share)
            } else {
                p
            });
            if k == tg {
                assert(m.value(dl[x]) == m.value(p) - inv);
                exact::lemma_distributes(z(k), m.value(p), inv);
            }
        }
        exact::lemma_plus(v, a, b, c);
        exact::lemma_scaled(v, inv, pz, a);
        exact::lemma_picked(v, tg, b);
        exact::lemma_distributes(inv, exact::sum(v, pz), z(tg));
    }
    exact::lemma_same(rows, row, part);
}

/// Through the logits.
pub proof fn lemma_head<T>(
    m: Exact<T>,
    params: Seq<Term<T>>,
    grads: Seq<Term<T>>,
    w: R,
    x: Seq<Term<T>>,
    dl: Seq<Term<T>>,
    rows: int,
    c: int,
    v: int,
)
    requires
        m.ok(),
        0 <= rows,
        0 <= c,
        0 <= v,
        grads.len() == params.len(),
        w.len == v * c,
        w.off + w.len <= params.len(),
    ensures
        ({
            let n = params.len() as int;
            let wr = block::region(params, w);
            let g = block::weight_grads(grads, w, dl, x, rows, v, c);
            &&& g.len() == grads.len()
            &&& adjoint::pair(
                m,
                dl,
                ops::nt(layout::zeros((rows * v) as nat), x, wr, rows, c, v),
                rows * v,
            ) + adjoint::pair(m, grads, params, n) == adjoint::pair(
                m,
                ops::nn(layout::zeros((rows * c) as nat), dl, wr, rows, v, c),
                x,
                rows * c,
            ) + adjoint::pair(m, g, params, n)
        }),
{
    let n = params.len() as int;
    let wr = block::region(params, w);
    let y = ops::nt(layout::zeros((rows * v) as nat), x, wr, rows, c, v);
    let dx = ops::nn(layout::zeros((rows * c) as nat), dl, wr, rows, v, c);
    let fdy = |r: int, o: int| m.value(dl[r * v + o]);
    let fx = |r: int, i: int| m.value(x[r * c + i]);
    let frx = |r: int, i: int| m.rate(x[r * c + i]);
    let fw = |i: int, o: int| m.value(wr[o * c + i]);
    let frw = |i: int, o: int| m.rate(wr[o * c + i]);
    adjoint::lemma_product_rule(rows, c, v, fdy, fx, frx, fw, frw);
    assert(0 <= rows * v && 0 <= rows * c && 0 <= v * c) by (nonlinear_arith)
        requires
            0 <= rows,
            0 <= c,
            0 <= v,
    ;
    let zero = scalar::zero::<T>();
    assert(m.value(zero) == 0real && m.rate(zero) == 0real);
    // The logits.
    let whole = |r: int, o: int|
        exact::times(
            fdy(r, o),
            exact::sum(
                c,
                |i: int| exact::times(frx(r, i), fw(i, o)) + exact::times(fx(r, i), frw(i, o)),
            ),
        );
    let flat = |z: int| exact::times(m.value(dl[z]), m.rate(y[z]));
    assert forall|r: int, o: int| 0 <= r < rows && 0 <= o < v implies #[trigger] whole(r, o)
        == flat(r * v + o) by {
        ops::lemma_cell(r, v, o);
        ops::lemma_row_end(r, rows, v);
        let dot = ops::dot(x, wr, r * c, o * c, c as nat);
        adjoint::lemma_dot(m, x, wr, r * c, o * c, c as nat);
        assert(y[r * v + o] == scalar::sum(zero, dot));
        assert(m.rate(y[r * v + o]) == m.rate(dot));
        exact::lemma_same(
            c,
            |i: int|
                exact::times(m.rate(x[r * c + i]), m.value(wr[o * c + i])) + exact::times(
                    m.value(x[r * c + i]),
                    m.rate(wr[o * c + i]),
                ),
            |i: int| exact::times(frx(r, i), fw(i, o)) + exact::times(fx(r, i), frw(i, o)),
        );
    }
    exact::lemma_by_rows(rows, v, flat, whole);
    // What goes in.
    let left = |r: int, i: int|
        exact::times(exact::sum(v, |o: int| exact::times(fdy(r, o), fw(i, o))), frx(r, i));
    let lflat = |z: int| exact::times(m.value(dx[z]), m.rate(x[z]));
    assert forall|r: int, i: int| 0 <= r < rows && 0 <= i < c implies #[trigger] left(r, i)
        == lflat(r * c + i) by {
        ops::lemma_cell(r, c, i);
        ops::lemma_row_end(r, rows, c);
        adjoint::lemma_nn_entry(m, zero, dl, wr, r, i, v, c, v as nat);
        assert(dx[r * c + i] == ops::nn_entry(zero, dl, wr, r, i, v, c, v as nat));
        exact::lemma_same(
            v,
            |o: int| exact::times(m.value(dl[r * v + o]), m.value(wr[o * c + i])),
            |o: int| exact::times(fdy(r, o), fw(i, o)),
        );
    }
    exact::lemma_by_rows(rows, c, lflat, left);
    // The embeddings.
    let right = |i: int, o: int|
        exact::times(exact::sum(rows, |r: int| exact::times(fdy(r, o), fx(r, i))), frw(i, o));
    let turned = |o: int, i: int| right(i, o);
    exact::lemma_swapped(c, v, right, turned);
    let rflat = |z: int|
        exact::times(adjoint::matrix_grad(m, dl, x, rows, v, c, z), m.rate(wr[z]));
    assert forall|o: int, i: int| 0 <= o < v && 0 <= i < c implies #[trigger] turned(o, i)
        == rflat(o * c + i) by {
        let z = o * c + i;
        ops::lemma_cell(o, c, i);
        let a = |r: int| exact::times(m.value(x[r * c + z % c]), m.value(dl[r * v + z / c]));
        let b = |r: int| exact::times(fdy(r, o), fx(r, i));
        assert forall|r: int| 0 <= r < rows implies #[trigger] a(r) == b(r) by {
            exact::lemma_commutes(fdy(r, o), fx(r, i));
        }
        exact::lemma_same(rows, a, b);
    }
    exact::lemma_by_rows(v, c, rflat, turned);
    adjoint::lemma_weight_grads(m, params, grads, w, dl, x, rows, v, c);
}

} // verus!
