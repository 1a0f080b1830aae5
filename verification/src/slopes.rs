//! Gradients of the layers that work number by number or row by row, in exact arithmetic.
use crate::adjoint;
use crate::block;
use crate::block::DropTerms;
use crate::exact;
use crate::exact::Exact;
use crate::layers;
use crate::scalar;
use crate::scalar::{Term, Unary};
use vstd::prelude::*;

verus! {

/// Gradients that were added up.
pub proof fn lemma_added_gradients<T>(
    m: Exact<T>,
    a: Seq<Term<T>>,
    b: Seq<Term<T>>,
    x: Seq<Term<T>>,
    n: int,
)
    requires
        n <= a.len(),
    ensures
        adjoint::pair(m, block::added(a, b), x, n) == adjoint::pair(m, a, x, n) + adjoint::pair(
            m,
            b,
            x,
            n,
        ),
{
    let s = block::added(a, b);
    let f = |i: int| exact::times(m.value(a[i]), m.rate(x[i]));
    let g = |i: int| exact::times(m.value(b[i]), m.rate(x[i]));
    let h = |i: int| exact::times(m.value(s[i]), m.rate(x[i]));
    assert forall|i: int| 0 <= i < n implies #[trigger] h(i) == f(i) + g(i) by {
        assert(s[i] == scalar::sum(a[i], b[i]));
        exact::lemma_distributes(m.rate(x[i]), m.value(a[i]), m.value(b[i]));
    }
    exact::lemma_plus(n, f, g, h);
}

/// Through a sum.
pub proof fn lemma_added_numbers<T>(
    m: Exact<T>,
    dy: Seq<Term<T>>,
    a: Seq<Term<T>>,
    b: Seq<Term<T>>,
    n: int,
)
    requires
        n <= a.len(),
    ensures
        adjoint::pair(m, dy, block::added(a, b), n) == adjoint::pair(m, dy, a, n) + adjoint::pair(
            m,
            dy,
            b,
            n,
        ),
{
    let s = block::added(a, b);
    let f = |i: int| exact::times(m.value(dy[i]), m.rate(a[i]));
    let g = |i: int| exact::times(m.value(dy[i]), m.rate(b[i]));
    let h = |i: int| exact::times(m.value(dy[i]), m.rate(s[i]));
    assert forall|i: int| 0 <= i < n implies #[trigger] h(i) == f(i) + g(i) by {
        assert(s[i] == scalar::sum(a[i], b[i]));
        exact::lemma_distributes(m.value(dy[i]), m.rate(a[i]), m.rate(b[i]));
    }
    exact::lemma_plus(n, f, g, h);
}

/// The factor of a number behind dropout.
proof fn lemma_factor<T>(m: Exact<T>, mask: u8, scale: Term<T>, x: Term<T>)
    requires
        m.ok(),
        mask == 0 || mask == 1,
        m.rate(scale) == 0real,
    ensures
        ({
            let f = scalar::product(Term::<T>::Count(mask as usize), scale);
            let y = if mask == 1 {
                scalar::product(x, scale)
            } else {
                scalar::zero()
            };
            &&& m.rate(f) == 0real
            &&& m.value(f) == if mask == 1 {
                m.value(scale)
            } else {
                0real
            }
            &&& m.rate(y) == exact::times(m.value(f), m.rate(x))
        }),
{
    let count = Term::<T>::Count(mask as usize);
    adjoint::lemma_product(m, count, scale);
    adjoint::lemma_product(m, x, scale);
    assert(m.rate(count) == 0real);
    assert(m.value(count) == mask as real);
    exact::lemma_units(m.value(scale));
    exact::lemma_units(m.value(count));
    exact::lemma_units(m.value(x));
    exact::lemma_units(m.rate(x));
    exact::lemma_commutes(m.value(scale), m.rate(x));
    assert(m.rate(scalar::zero::<T>()) == 0real);
}

/// Through dropout.
pub proof fn lemma_dropped<T>(
    m: Exact<T>,
    dy: Seq<Term<T>>,
    x: Seq<Term<T>>,
    mask: Seq<u8>,
    drop: DropTerms<T>,
    n: int,
)
    requires
        m.ok(),
        n <= x.len(),
        n <= dy.len(),
        m.rate(drop.scale) == 0real,
        if drop.on {
            &&& mask.len() == n
            &&& forall|i: int| 0 <= i < n ==> #[trigger] mask[i] == 0 || mask[i] == 1
        } else {
            mask.len() == 0
        },
    ensures
        adjoint::pair(m, dy, block::dropped(x, mask, drop), n) == adjoint::pair(
            m,
            block::undropped(dy, mask, drop.scale),
            x,
            n,
        ),
{
    let y = block::dropped(x, mask, drop);
    let dx = block::undropped(dy, mask, drop.scale);
    let f = |i: int| exact::times(m.value(dy[i]), m.rate(y[i]));
    let g = |i: int| exact::times(m.value(dx[i]), m.rate(x[i]));
    assert forall|i: int| 0 <= i < n implies #[trigger] f(i) == g(i) by {
        if drop.on {
            assert(mask[i] == 0 || mask[i] == 1);
            lemma_factor(m, mask[i], drop.scale, x[i]);
            let c = scalar::product(Term::<T>::Count(mask[i] as usize), drop.scale);
            adjoint::lemma_product(m, dy[i], c);
            exact::lemma_associates(m.value(dy[i]), m.value(c), m.rate(x[i]));
        } else {
            adjoint::lemma_product(m, dy[i], scalar::one());
            exact::lemma_units(m.value(dy[i]));
            assert(m.value(scalar::one::<T>()) == 1real);
        }
    }
    exact::lemma_same(n, f, g);
}

/// The rate of what stands under the hyperbolic tangent of GELU.
proof fn lemma_gelu_inner<T>(m: Exact<T>, x: Term<T>)
    requires
        m.ok(),
    ensures
        ({
            let a = Term::<T>::Bits(0x3d37_2713);
            let e = scalar::product(
                scalar::product(scalar::product(Term::Bits(0x4040_0000), a), x),
                x,
            );
            m.rate(layers::gelu_inner(x)) == exact::times(
                (m.bits)(0x3f4c_422a),
                exact::times(1real + m.value(e), m.rate(x)),
            )
        }),
{
    let a = Term::<T>::Bits(0x3d37_2713);
    let three = Term::<T>::Bits(0x4040_0000);
    let k = Term::<T>::Bits(0x3f4c_422a);
    let (av, xv, p) = (m.value(a), m.value(x), m.rate(x));
    let s1 = scalar::product(a, x);
    let s2 = scalar::product(s1, x);
    let s3 = scalar::product(s2, x);
    let s = scalar::sum(x, s3);
    adjoint::lemma_product(m, a, x);
    adjoint::lemma_product(m, s1, x);
    adjoint::lemma_product(m, s2, x);
    adjoint::lemma_product(m, k, s);
    let y = exact::times(av, xv);
    let z = exact::times(y, xv);
    exact::lemma_units(xv);
    assert(m.rate(a) == 0real && m.rate(k) == 0real);
    assert(m.rate(s1) == exact::times(av, p));
    exact::lemma_swaps(av, p, xv);
    assert(m.rate(s2) == exact::times(y, p) + exact::times(y, p));
    exact::lemma_distributes(xv, exact::times(y, p), exact::times(y, p));
    exact::lemma_swaps(y, p, xv);
    let zp = exact::times(z, p);
    assert(m.rate(s3) == zp + zp + zp);
    // Three times the square.
    let e1 = scalar::product(three, a);
    let e2 = scalar::product(e1, x);
    let e = scalar::product(e2, x);
    adjoint::lemma_product(m, three, a);
    adjoint::lemma_product(m, e1, x);
    adjoint::lemma_product(m, e2, x);
    assert(m.value(three) == 3real);
    exact::lemma_units(av);
    exact::lemma_distributes(av, 1real, 1real);
    exact::lemma_distributes(av, 2real, 1real);
    assert(m.value(e1) == av + av + av);
    exact::lemma_distributes(xv, av, av);
    exact::lemma_distributes(xv, av + av, av);
    assert(m.value(e2) == y + y + y);
    exact::lemma_distributes(xv, y, y);
    exact::lemma_distributes(xv, y + y, y);
    assert(m.value(e) == z + z + z);
    exact::lemma_distributes(p, z, z);
    exact::lemma_distributes(p, z + z, z);
    exact::lemma_distributes(p, 1real, m.value(e));
    exact::lemma_units(p);
    assert(m.rate(s) == exact::times(1real + m.value(e), p));
    exact::lemma_units(m.value(s));
}

/// The rate of GELU is its slope times the rate of what it is taken of.
proof fn lemma_gelu<T>(m: Exact<T>, x: Term<T>)
    requires
        m.ok(),
    ensures
        m.rate(layers::gelu(x)) == exact::times(m.value(layers::gelu_slope(x)), m.rate(x)),
{
    let half = Term::<T>::Bits(0x3f00_0000);
    let a = Term::<T>::Bits(0x3d37_2713);
    let k = Term::<T>::Bits(0x3f4c_422a);
    let u = layers::gelu_inner(x);
    let th = scalar::apply1(Unary::Tanh, u);
    let one = scalar::one::<T>();
    let b = scalar::sum(one, th);
    let hx = scalar::product(half, x);
    let flat = scalar::difference(one, scalar::product(th, th));
    let e = scalar::product(scalar::product(scalar::product(Term::Bits(0x4040_0000), a), x), x);
    let rise = scalar::sum(one, e);
    let (h, xv, p, kv) = (m.value(half), m.value(x), m.rate(x), m.value(k));
    lemma_gelu_inner(m, x);
    adjoint::lemma_product(m, half, x);
    adjoint::lemma_product(m, hx, b);
    adjoint::lemma_product(m, th, th);
    exact::lemma_units(xv);
    assert(m.value(one) == 1real && m.rate(one) == 0real && m.rate(half) == 0real);
    let g = m.value(b);
    let f = m.value(flat);
    let w = m.value(rise);
    let v = m.value(hx);
    assert(f == (m.slope)(Unary::Tanh, m.value(u)));
    assert(m.rate(th) == exact::times(f, m.rate(u)));
    assert(w == 1real + m.value(e));
    assert(m.rate(u) == exact::times(kv, exact::times(w, p)));
    assert(m.rate(b) == m.rate(th));
    assert(m.rate(hx) == exact::times(h, p));
    exact::lemma_swaps(h, p, g);
    exact::lemma_associates(v, f, exact::times(kv, exact::times(w, p)));
    exact::lemma_associates(exact::times(v, f), kv, exact::times(w, p));
    exact::lemma_associates(exact::times(exact::times(v, f), kv), w, p);
    let s1 = scalar::product(half, b);
    let s2 = scalar::product(scalar::product(hx, flat), k);
    let s3 = scalar::product(s2, rise);
    adjoint::lemma_product(m, half, b);
    adjoint::lemma_product(m, hx, flat);
    adjoint::lemma_product(m, scalar::product(hx, flat), k);
    adjoint::lemma_product(m, s2, rise);
    assert(m.value(layers::gelu_slope(x)) == m.value(s1) + m.value(s3));
    exact::lemma_distributes(p, m.value(s1), m.value(s3));
}

/// Through GELU.
pub proof fn lemma_gelus<T>(m: Exact<T>, dy: Seq<Term<T>>, x: Seq<Term<T>>, n: int)
    requires
        m.ok(),
        n <= x.len(),
    ensures
        adjoint::pair(m, dy, layers::gelus(x), n) == adjoint::pair(m, layers::sloped(dy, x), x, n),
{
    let y = layers::gelus(x);
    let dx = layers::sloped(dy, x);
    let f = |i: int| exact::times(m.value(dy[i]), m.rate(y[i]));
    let g = |i: int| exact::times(m.value(dx[i]), m.rate(x[i]));
    assert forall|i: int| 0 <= i < n implies #[trigger] f(i) == g(i) by {
        lemma_gelu(m, x[i]);
        let s = layers::gelu_slope(x[i]);
        adjoint::lemma_product(m, dy[i], s);
        exact::lemma_associates(m.value(dy[i]), m.value(s), m.rate(x[i]));
    }
    exact::lemma_same(n, f, g);
}

} // verus!
