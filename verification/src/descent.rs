//! What the optimiser, the learning-rate schedule and the clipping of gradients do, read in
//! exact arithmetic.
use crate::exact;
use crate::exact::Exact;
use crate::optim;
use crate::optim::AdamW;
use crate::scalar;
use crate::scalar::{Scalar, Term};
use vstd::prelude::*;

verus! {

/// In the warmup the learning rate rises in equal steps: that of iteration `it` is `it + 1` of
/// the `warmup_iters + 1` equal parts of the full rate.
pub proof fn law_lr_warms_up<T>(
    m: Exact<T>,
    it: usize,
    warmup_iters: usize,
    lr_decay_iters: usize,
    learning_rate: Term<T>,
    min_lr: Term<T>,
)
    requires
        it < warmup_iters < usize::MAX,
    ensures
        exact::times(
            m.value(optim::lr_of(it, warmup_iters, lr_decay_iters, learning_rate, min_lr)),
            (warmup_iters + 1) as real,
        ) == exact::times(m.value(learning_rate), (it + 1) as real),
{
    let n: Term<T> = Term::Count((it + 1) as usize);
    let d: Term<T> = Term::Count((warmup_iters + 1) as usize);
    let lr = optim::lr_of(it, warmup_iters, lr_decay_iters, learning_rate, min_lr);
    let top = scalar::product(learning_rate, n);
    assert(m.value(n) == (it + 1) as real);
    assert(m.value(d) == (warmup_iters + 1) as real);
    assert(m.value(top) == exact::times(m.value(learning_rate), m.value(n)));
    assert(lr == scalar::quotient(top, d));
    exact::lemma_divides(m.value(top), m.value(d));
}

/// Between the warmup and the end of the decay, with `r` for the part of the decay that is
/// over, the argument of the cosine is `pi * r`, which stays within zero and pi, and twice the
/// rate above the minimum is `1 + cos(pi * r)` times the whole fall.
pub proof fn law_lr_follows_half_a_wave<T>(
    m: Exact<T>,
    it: usize,
    warmup_iters: usize,
    lr_decay_iters: usize,
    learning_rate: Term<T>,
    min_lr: Term<T>,
    r: real,
)
    requires
        m.ok(),
        m.pi() > 0real,
        2real * (m.bits)(0x3f00_0000) == 1real,
        warmup_iters <= it <= lr_decay_iters,
        warmup_iters < lr_decay_iters,
        exact::times(r, (lr_decay_iters - warmup_iters) as real) == (it - warmup_iters) as real,
    ensures
        0real <= r <= 1real,
        0real <= exact::times(m.pi(), r) <= m.pi(),
        2real * (m.value(
            optim::lr_of(it, warmup_iters, lr_decay_iters, learning_rate, min_lr),
        ) - m.value(min_lr)) == exact::times(
            1real + (m.image)(scalar::Unary::Cos, exact::times(m.pi(), r)),
            m.value(learning_rate) - m.value(min_lr),
        ),
{
    let a = (it - warmup_iters) as real;
    let b = (lr_decay_iters - warmup_iters) as real;
    let lr = optim::lr_of(it, warmup_iters, lr_decay_iters, learning_rate, min_lr);
    exact::lemma_orders(0real, r, b);
    exact::lemma_orders(r, 1real, b);
    exact::lemma_units(b);
    exact::lemma_units(m.pi());
    exact::lemma_orders(0real, r, m.pi());
    exact::lemma_orders(r, 1real, m.pi());
    exact::lemma_commutes(m.pi(), r);
    let n: Term<T> = Term::Count((it - warmup_iters) as usize);
    let d: Term<T> = Term::Count((lr_decay_iters - warmup_iters) as usize);
    let ratio = scalar::quotient(n, d);
    assert(m.value(n) == a);
    assert(m.value(d) == b);
    assert(m.value(ratio) == exact::over(a, b));
    exact::lemma_divides(a, b);
    exact::lemma_cancels(exact::over(a, b), r, b);
    let p: Term<T> = Term::Bits(0x4049_0fdb);
    let arg = scalar::product(p, ratio);
    assert(m.value(p) == m.pi());
    assert(m.value(arg) == exact::times(m.pi(), r));
    let cos = scalar::apply1(scalar::Unary::Cos, arg);
    assert(m.value(cos) == (m.image)(scalar::Unary::Cos, exact::times(m.pi(), r)));
    let one = scalar::one::<T>();
    assert(m.value(one) == 1real);
    let up = scalar::sum(one, cos);
    assert(m.value(up) == 1real + m.value(cos));
    let half: Term<T> = Term::Bits(0x3f00_0000);
    let h = (m.bits)(0x3f00_0000);
    assert(m.value(half) == h);
    let coeff = scalar::product(half, up);
    assert(m.value(coeff) == exact::times(h, m.value(up)));
    let fall = scalar::difference(learning_rate, min_lr);
    let f = m.value(learning_rate) - m.value(min_lr);
    assert(m.value(fall) == f);
    let part = scalar::product(coeff, fall);
    assert(m.value(part) == exact::times(m.value(coeff), f));
    assert(lr == scalar::sum(min_lr, part));
    assert(m.value(lr) == m.value(min_lr) + m.value(part));
    let u = m.value(up);
    exact::lemma_associates(h, u, f);
    exact::lemma_distributes(exact::times(u, f), h, h);
    exact::lemma_units(exact::times(u, f));
}

/// From the end of the warmup on the learning rate never rises: it starts at the full rate,
/// is never larger at a later iteration than at an earlier one, and reaches the minimum at the
/// end of the decay.
pub proof fn law_lr_never_rises<T>(
    m: Exact<T>,
    earlier: usize,
    later: usize,
    warmup_iters: usize,
    lr_decay_iters: usize,
    learning_rate: Term<T>,
    min_lr: Term<T>,
)
    requires
        m.ok(),
        m.takes_cosines(),
        2real * (m.bits)(0x3f00_0000) == 1real,
        warmup_iters <= earlier <= later,
        warmup_iters < lr_decay_iters,
        m.value(min_lr) <= m.value(learning_rate),
    ensures
        m.value(optim::lr_of(later, warmup_iters, lr_decay_iters, learning_rate, min_lr))
            <= m.value(optim::lr_of(earlier, warmup_iters, lr_decay_iters, learning_rate, min_lr)),
        m.value(min_lr) <= m.value(
            optim::lr_of(later, warmup_iters, lr_decay_iters, learning_rate, min_lr),
        ),
        m.value(optim::lr_of(earlier, warmup_iters, lr_decay_iters, learning_rate, min_lr))
            <= m.value(learning_rate),
        m.value(optim::lr_of(warmup_iters, warmup_iters, lr_decay_iters, learning_rate, min_lr))
            == m.value(learning_rate),
        later >= lr_decay_iters ==> m.value(
            optim::lr_of(later, warmup_iters, lr_decay_iters, learning_rate, min_lr),
        ) == m.value(min_lr),
{
    let f = m.value(learning_rate) - m.value(min_lr);
    let c = |x: real| (m.image)(scalar::Unary::Cos, x);
    let b = (lr_decay_iters - warmup_iters) as real;
    let at = |it: int| exact::over((it - warmup_iters) as real, b);
    let arg = |it: int| exact::times(m.pi(), at(it));
    let d = lr_decay_iters;
    assert forall|it: usize| warmup_iters <= it <= d implies {
        &&& 0real <= #[trigger] arg(it as int) <= m.pi()
        &&& 2real * (m.value(optim::lr_of(it, warmup_iters, d, learning_rate, min_lr)) - m.value(
            min_lr,
        )) == exact::times(1real + c(arg(it as int)), f)
    } by {
        exact::lemma_divides((it - warmup_iters) as real, b);
        law_lr_follows_half_a_wave(
            m,
            it,
            warmup_iters,
            d,
            learning_rate,
            min_lr,
            at(it as int),
        );
    }
    // The two ends.
    exact::lemma_divides(0real, b);
    exact::lemma_units(b);
    exact::lemma_cancels(at(warmup_iters as int), 0real, b);
    exact::lemma_units(m.pi());
    assert(arg(warmup_iters as int) == 0real);
    exact::lemma_divides(b, b);
    exact::lemma_cancels(at(d as int), 1real, b);
    assert(arg(d as int) == m.pi());
    exact::lemma_units(f);
    exact::lemma_distributes(f, 1real, 1real);
    if earlier <= d {
        let e = arg(earlier as int);
        assert(c(0real) >= c(e));
        exact::lemma_orders(1real + c(e), 2real, f);
        assert(c(e) >= c(m.pi()));
        exact::lemma_orders(0real, 1real + c(e), f);
        if later <= d {
            let l = arg(later as int);
            exact::lemma_divides((earlier - warmup_iters) as real, b);
            exact::lemma_divides((later - warmup_iters) as real, b);
            exact::lemma_orders(at(later as int), at(earlier as int), b);
            exact::lemma_orders(at(earlier as int), at(later as int), b);
            exact::lemma_orders(at(earlier as int), at(later as int), m.pi());
            exact::lemma_commutes(m.pi(), at(earlier as int));
            exact::lemma_commutes(m.pi(), at(later as int));
            assert(e <= l);
            assert(c(e) >= c(l));
            assert(c(l) >= c(m.pi()));
            exact::lemma_orders(1real + c(l), 1real + c(e), f);
            exact::lemma_orders(0real, 1real + c(l), f);
        }
    }
}

/// The sum of squares in the higher precision.
proof fn lemma_squares<T>(m: Exact<T>, x: Seq<Term<T>>, n: nat)
    requires
        m.narrows(),
    ensures
        m.wide(optim::squares(x, n)) == exact::sum(
            n as int,
            |i: int| exact::times(m.value(x[i]), m.value(x[i])),
        ),
        m.wide(optim::squares(x, n)) >= 0real,
    decreases n,
{
    if n > 0 {
        lemma_squares(m, x, (n - 1) as nat);
        exact::lemma_square(m.value(x[n - 1]));
    }
}

/// The norm of numbers, as a formula.
pub open spec fn norm_of<T>(x: Seq<Term<T>>) -> Term<T> {
    scalar::root(optim::squares(x, x.len()))
}

/// What clipping reports is the norm: it is not negative, and its square is the sum of the
/// squares of the gradients.
pub proof fn law_norm_is_root_of_squares<T>(m: Exact<T>, g: Seq<Term<T>>)
    requires
        m.narrows(),
        m.takes_roots(),
    ensures
        m.value(norm_of(g)) >= 0real,
        exact::times(m.value(norm_of(g)), m.value(norm_of(g))) == exact::sum(
            g.len() as int,
            |i: int| exact::times(m.value(g[i]), m.value(g[i])),
        ),
{
    lemma_squares(m, g, g.len());
    let q = optim::squares(g, g.len());
    let w = scalar::wide_apply(scalar::WideUnary::Sqrt, q);
    assert(m.wide(w) == (m.image)(scalar::Unary::Sqrt, m.wide(q)));
    assert(m.value(norm_of(g)) == (m.leaf)(Term::Narrow(w)));
}

/// Two numbers with `h * (n + e) == x * n`.
proof fn lemma_just_below(h: real, n: real, e: real, x: real)
    requires
        exact::times(h, n + e) == exact::times(x, n),
        n > 0real,
        e > 0real,
        x > 0real,
    ensures
        h < x,
        exact::times(h, n) > exact::times(x, n - e),
{
    exact::lemma_distributes(h, n, e);
    exact::lemma_distributes(x, n, e);
    exact::lemma_orders(0real, x, e);
    exact::lemma_units(e);
    exact::lemma_orders(x, h, n + e);
    exact::lemma_distributes(x, n, e);
    if h >= x {
        exact::lemma_orders(x, h, n + e);
    }
    exact::lemma_orders(h, x, e);
}

/// Gradients whose norm is above a `max_norm` above zero are scaled down, all by the same
/// factor, to the norm `max_norm * norm / (norm + 1e-6)`: below `max_norm`, and above
/// `max_norm * (1 - 1e-6 / norm)`. All others stay as they are.
pub proof fn law_clipping_limits_norm<T: Scalar>(
    m: Exact<T>,
    g: Seq<Term<T>>,
    max_norm: Term<T>,
    h: Seq<Term<T>>,
)
    requires
        m.ok(),
        m.narrows(),
        m.takes_roots(),
        1000000real * (m.bits)(0x3586_37bd) == 1real,
        exact::less_is_exact(m, scalar::zero(), max_norm),
        exact::less_is_exact(m, max_norm, norm_of(g)),
        optim::may_clip(g, max_norm, h),
    ensures
        h.len() == g.len(),
        ({
            let x = m.value(max_norm);
            let n = m.value(norm_of(g));
            let e = 1real / 1000000real;
            if 0real < x < n {
                &&& exact::times(m.value(norm_of(h)), n + e) == exact::times(x, n)
                &&& m.value(norm_of(h)) < x
                &&& exact::times(m.value(norm_of(h)), n) > exact::times(x, n - e)
                &&& forall|i: int|
                    0 <= i < g.len() ==> exact::times(m.value(#[trigger] h[i]), n + e)
                        == exact::times(m.value(g[i]), x)
            } else {
                h == g
            }
        }),
{
    let x = m.value(max_norm);
    let n = m.value(norm_of(g));
    let e = (m.bits)(0x3586_37bd);
    assert(m.value(scalar::zero::<T>()) == 0real);
    if 0real < x < n {
        assert(e == 1real / 1000000real);
        assert(e > 0real);
        assert(h == optim::clipped(g, max_norm, norm_of(g)));
        let eps: Term<T> = Term::Bits(0x3586_37bd);
        assert(m.value(eps) == e);
        let bottom = scalar::sum(norm_of(g), eps);
        assert(m.value(bottom) == n + e);
        let s = scalar::quotient(max_norm, bottom);
        let f = m.value(s);
        assert(f == exact::over(x, n + e));
        exact::lemma_divides(x, n + e);
        exact::lemma_units(n + e);
        exact::lemma_orders(f, 0real, n + e);
        assert(f > 0real);
        assert forall|i: int| 0 <= i < g.len() implies {
            &&& m.value(#[trigger] h[i]) == exact::times(m.value(g[i]), f)
            &&& exact::times(m.value(h[i]), n + e) == exact::times(m.value(g[i]), x)
        } by {
            assert(h[i] == scalar::product(g[i], s));
            exact::lemma_associates(m.value(g[i]), f, n + e);
        }
        law_norm_is_root_of_squares(m, g);
        law_norm_is_root_of_squares(m, h);
        let sg = |i: int| exact::times(m.value(g[i]), m.value(g[i]));
        let sh = |i: int| exact::times(m.value(h[i]), m.value(h[i]));
        let ff = exact::times(f, f);
        assert forall|i: int| 0 <= i < g.len() implies #[trigger] sh(i) == exact::times(
            ff,
            sg(i),
        ) by {
            assert(m.value(h[i]) == exact::times(m.value(g[i]), f));
            exact::lemma_squares_product(m.value(g[i]), f);
            exact::lemma_commutes(sg(i), ff);
        }
        exact::lemma_scaled(g.len() as int, ff, sg, sh);
        let nh = m.value(norm_of(h));
        exact::lemma_squares_product(f, n);
        exact::lemma_orders(0real, f, n);
        exact::lemma_units(n);
        exact::lemma_same_square(nh, exact::times(f, n));
        exact::lemma_swaps(f, n, n + e);
        lemma_just_below(nh, n, e, x);
    }
}

/// A step of the optimiser, parameter by parameter. Both moments keep the part `beta` of
/// their distance to the gradient and to its square. With `mhat` and `vhat` for the moments
/// over `1 - beta^t`, and `s` for the root of `vhat`, the parameter, shrunk by the factor
/// `1 - lr * wd` where it decays, loses `lr * mhat / (s + eps)`; so for a rate above zero it
/// moves against the sign of its first moment.
pub proof fn law_step_goes_against_moment<T: Scalar>(
    m: Exact<T>,
    a: AdamW<T>,
    p: Seq<Term<T>>,
    g: Seq<Term<T>>,
    decay: Seq<bool>,
    lr: Term<T>,
    wd: Term<T>,
    b: AdamW<T>,
    q: Seq<Term<T>>,
    i: int,
    mhat: real,
    vhat: real,
)
    requires
        m.ok(),
        m.takes_powers(),
        m.takes_roots(),
        optim::steps(a, p, g, decay, lr, wd, b, q),
        0 <= i < p.len(),
        p.len() <= a.m@.len(),
        p.len() <= a.v@.len(),
        b.t <= i32::MAX,
        0real <= m.value(a.beta1@) < 1real,
        0real <= m.value(a.beta2@) < 1real,
        m.value(a.eps@) > 0real,
        m.value(a.v@[i]@) >= 0real,
        exact::times(mhat, 1real - exact::power(m.value(a.beta1@), b.t as nat)) == m.value(
            b.m@[i]@,
        ),
        exact::times(vhat, 1real - exact::power(m.value(a.beta2@), b.t as nat)) == m.value(
            b.v@[i]@,
        ),
    ensures
        m.value(b.m@[i]@) - m.value(g[i]) == exact::times(
            m.value(a.beta1@),
            m.value(a.m@[i]@) - m.value(g[i]),
        ),
        m.value(b.v@[i]@) - exact::times(m.value(g[i]), m.value(g[i])) == exact::times(
            m.value(a.beta2@),
            m.value(a.v@[i]@) - exact::times(m.value(g[i]), m.value(g[i])),
        ),
        m.value(b.v@[i]@) >= 0real,
        vhat >= 0real,
        ({
            let kept = if decay[i] {
                exact::times(
                    m.value(p[i]),
                    1real - exact::times(m.value(lr), m.value(wd)),
                )
            } else {
                m.value(p[i])
            };
            &&& forall|s: real|
                s >= 0real && #[trigger] exact::times(s, s) == vhat ==> exact::times(
                    kept - m.value(q[i]),
                    s + m.value(a.eps@),
                ) == exact::times(m.value(lr), mhat)
            &&& m.value(lr) > 0real && m.value(b.m@[i]@) > 0real ==> m.value(q[i]) < kept
            &&& m.value(lr) > 0real && m.value(b.m@[i]@) < 0real ==> m.value(q[i]) > kept
            &&& m.value(b.m@[i]@) == 0real ==> m.value(q[i]) == kept
        }),
{
    let t = b.t;
    let (b1, b2, eps) = (m.value(a.beta1@), m.value(a.beta2@), m.value(a.eps@));
    let (m0, v0, gr) = (m.value(a.m@[i]@), m.value(a.v@[i]@), m.value(g[i]));
    let (m1, v1) = (m.value(b.m@[i]@), m.value(b.v@[i]@));
    let one = scalar::one::<T>();
    assert(m.value(one) == 1real);
    // The moments.
    assert(scalar::terms(b.m@)[i] == optim::blend(a.beta1@, scalar::terms(a.m@)[i], g[i]));
    assert(scalar::terms(b.v@)[i] == optim::second_moment(a.beta2@, scalar::terms(a.v@)[i], g[i]));
    assert(b.m@.len() == scalar::terms(b.m@).len());
    assert(b.v@.len() == scalar::terms(b.v@).len());
    let r1 = scalar::difference(one, a.beta1@);
    let r2 = scalar::difference(one, a.beta2@);
    assert(m.value(r1) == 1real - b1);
    assert(m.value(r2) == 1real - b2);
    let o1 = scalar::product(a.beta1@, a.m@[i]@);
    let n1 = scalar::product(r1, g[i]);
    assert(m.value(o1) == exact::times(b1, m0));
    assert(m.value(n1) == exact::times(1real - b1, gr));
    assert(b.m@[i]@ == scalar::sum(o1, n1));
    exact::lemma_distributes(gr, 1real, b1);
    exact::lemma_distributes(b1, m0, gr);
    exact::lemma_units(gr);
    let o2 = scalar::product(a.beta2@, a.v@[i]@);
    let h2 = scalar::product(r2, g[i]);
    let n2 = scalar::product(h2, g[i]);
    let sq = exact::times(gr, gr);
    assert(m.value(o2) == exact::times(b2, v0));
    assert(m.value(h2) == exact::times(1real - b2, gr));
    assert(m.value(n2) == exact::times(exact::times(1real - b2, gr), gr));
    exact::lemma_associates(1real - b2, gr, gr);
    assert(b.v@[i]@ == scalar::sum(o2, n2));
    exact::lemma_distributes(sq, 1real, b2);
    exact::lemma_distributes(b2, v0, sq);
    exact::lemma_units(sq);
    exact::lemma_square(gr);
    exact::lemma_orders(0real, b2, v0);
    exact::lemma_orders(0real, 1real - b2, sq);
    exact::lemma_units(v0);
    assert(v1 >= 0real);
    // The corrected moments.
    let c1 = optim::correction(a.beta1@, t);
    let c2 = optim::correction(a.beta2@, t);
    let p1 = scalar::apply1(scalar::Unary::Power(t as i32), a.beta1@);
    let p2 = scalar::apply1(scalar::Unary::Power(t as i32), a.beta2@);
    assert((t as i32) as nat == t as nat);
    assert(m.value(p1) == exact::power(b1, t as nat));
    assert(m.value(p2) == exact::power(b2, t as nat));
    let d1 = 1real - exact::power(b1, t as nat);
    let d2 = 1real - exact::power(b2, t as nat);
    assert(m.value(c1) == d1);
    assert(m.value(c2) == d2);
    exact::lemma_power(b1, t as nat);
    exact::lemma_power(b2, t as nat);
    let mt = scalar::quotient(b.m@[i]@, c1);
    let vt = scalar::quotient(b.v@[i]@, c2);
    exact::lemma_divides(m1, d1);
    exact::lemma_divides(v1, d2);
    exact::lemma_cancels(m.value(mt), mhat, d1);
    exact::lemma_cancels(m.value(vt), vhat, d2);
    exact::lemma_orders(vhat, 0real, d2);
    exact::lemma_orders(0real, vhat, d2);
    exact::lemma_units(d2);
    exact::lemma_orders(mhat, 0real, d1);
    exact::lemma_orders(0real, mhat, d1);
    exact::lemma_units(d1);
    // The change.
    let root = scalar::apply1(scalar::Unary::Sqrt, vt);
    let r = m.value(root);
    assert(r == (m.image)(scalar::Unary::Sqrt, vhat));
    let bottom = scalar::sum(root, a.eps@);
    assert(m.value(bottom) == r + eps);
    let top = scalar::product(lr, mt);
    assert(m.value(top) == exact::times(m.value(lr), mhat));
    let change = scalar::quotient(top, bottom);
    let c = m.value(change);
    assert(c == exact::over(m.value(top), r + eps));
    exact::lemma_divides(m.value(top), r + eps);
    let kt = if decay[i] {
        scalar::product(p[i], scalar::difference(one, scalar::product(lr, wd)))
    } else {
        p[i]
    };
    let kept = if decay[i] {
        exact::times(m.value(p[i]), 1real - exact::times(m.value(lr), m.value(wd)))
    } else {
        m.value(p[i])
    };
    let lw = scalar::product(lr, wd);
    assert(m.value(lw) == exact::times(m.value(lr), m.value(wd)));
    let fw = scalar::difference(one, lw);
    assert(m.value(fw) == 1real - m.value(lw));
    assert(m.value(kt) == kept);
    assert(q[i] == scalar::difference(kt, change));
    assert(kept - m.value(q[i]) == c);
    assert forall|s: real| s >= 0real && #[trigger] exact::times(s, s) == vhat implies exact::times(
        c,
        s + eps,
    ) == exact::times(m.value(lr), mhat) by {
        exact::lemma_same_square(s, r);
    }
    if m.value(lr) > 0real {
        exact::lemma_orders(0real, mhat, m.value(lr));
        exact::lemma_orders(mhat, 0real, m.value(lr));
        exact::lemma_commutes(mhat, m.value(lr));
    }
    exact::lemma_units(m.value(lr));
    exact::lemma_orders(0real, c, r + eps);
    exact::lemma_orders(c, 0real, r + eps);
    exact::lemma_units(r + eps);
    if m1 == 0real {
        exact::lemma_cancels(mhat, 0real, d1);
        exact::lemma_cancels(c, 0real, r + eps);
    }
}

/// A step changes the moments of the parameters that it is given, and no others; and it keeps
/// the number of parameters, the betas and what keeps divisors from zero.
pub proof fn law_step_leaves_the_rest<T: Scalar>(
    a: AdamW<T>,
    p: Seq<Term<T>>,
    g: Seq<Term<T>>,
    decay: Seq<bool>,
    lr: Term<T>,
    wd: Term<T>,
    b: AdamW<T>,
    q: Seq<Term<T>>,
)
    requires
        optim::steps(a, p, g, decay, lr, wd, b, q),
    ensures
        q.len() == p.len(),
        b.m@.len() == a.m@.len(),
        b.v@.len() == a.v@.len(),
        forall|i: int| p.len() <= i < a.m@.len() ==> (#[trigger] b.m@[i])@ == a.m@[i]@,
        forall|i: int| p.len() <= i < a.v@.len() ==> (#[trigger] b.v@[i])@ == a.v@[i]@,
        b.t == a.t + 1,
        b.beta1 == a.beta1,
        b.beta2 == a.beta2,
        b.eps == a.eps,
{
    let (bm, bv) = (scalar::terms(b.m@), scalar::terms(b.v@));
    assert(bm.len() == a.m@.len() && bv.len() == a.v@.len());
    assert forall|i: int| p.len() <= i < a.m@.len() implies (#[trigger] b.m@[i])@ == a.m@[i]@ by {
        assert(bm[i] == scalar::terms(a.m@)[i]);
    }
    assert forall|i: int| p.len() <= i < a.v@.len() implies (#[trigger] b.v@[i])@ == a.v@[i]@ by {
        assert(bv[i] == scalar::terms(a.v@)[i]);
    }
}

/// A run of steps: step `n` takes the optimiser from `at[n]` to `at[n + 1]` and the parameters
/// from `p[n]` to `p[n + 1]`, with the gradients `g[n]` and the learning rate `lr[n]`.
pub open spec fn steps_in_turn<T: Scalar>(
    at: Seq<AdamW<T>>,
    p: Seq<Seq<Term<T>>>,
    g: Seq<Seq<Term<T>>>,
    decay: Seq<bool>,
    lr: Seq<Term<T>>,
    wd: Term<T>,
) -> bool {
    &&& at.len() == g.len() + 1
    &&& p.len() == g.len() + 1
    &&& lr.len() == g.len()
    &&& forall|n: int|
        #![trigger at[n + 1]]
        0 <= n < g.len() ==> optim::steps(
            at[n],
            p[n],
            g[n],
            decay,
            lr[n],
            wd,
            at[n + 1],
            p[n + 1],
        )
}

/// After `n` steps from moments of zero on the gradient `x`, the moments are `1 - beta^n` of
/// the gradient and of its square.
proof fn lemma_moments_of_constant<T: Scalar>(
    m: Exact<T>,
    at: Seq<AdamW<T>>,
    p: Seq<Seq<Term<T>>>,
    g: Seq<Seq<Term<T>>>,
    decay: Seq<bool>,
    lr: Seq<Term<T>>,
    wd: Term<T>,
    i: int,
    x: real,
    n: nat,
)
    requires
        m.ok(),
        m.takes_powers(),
        m.takes_roots(),
        steps_in_turn(at, p, g, decay, lr, wd),
        0 <= i < p[0].len(),
        p[0].len() <= at[0].m@.len(),
        p[0].len() <= at[0].v@.len(),
        at[0].t == 0,
        m.value(at[0].m@[i]@) == 0real,
        m.value(at[0].v@[i]@) == 0real,
        0real <= m.value(at[0].beta1@) < 1real,
        0real <= m.value(at[0].beta2@) < 1real,
        m.value(at[0].eps@) > 0real,
        g.len() <= i32::MAX,
        forall|k: int| 0 <= k < g.len() ==> m.value(#[trigger] g[k][i]) == x,
        n <= g.len(),
    ensures
        at[n as int].t == n,
        at[n as int].beta1 == at[0].beta1,
        at[n as int].beta2 == at[0].beta2,
        at[n as int].eps == at[0].eps,
        p[n as int].len() == p[0].len(),
        at[n as int].m@.len() == at[0].m@.len(),
        at[n as int].v@.len() == at[0].v@.len(),
        m.value(at[n as int].m@[i]@) == exact::times(
            1real - exact::power(m.value(at[0].beta1@), n),
            x,
        ),
        m.value(at[n as int].v@[i]@) == exact::times(
            1real - exact::power(m.value(at[0].beta2@), n),
            exact::times(x, x),
        ),
    decreases n,
{
    exact::lemma_units(x);
    exact::lemma_units(exact::times(x, x));
    if n > 0 {
        let k = n - 1;
        lemma_moments_of_constant(m, at, p, g, decay, lr, wd, i, x, k as nat);
        let (b1, b2) = (m.value(at[0].beta1@), m.value(at[0].beta2@));
        let xx = exact::times(x, x);
        let (a, b) = (at[k], at[k + 1]);
        assert(optim::steps(a, p[k], g[k], decay, lr[k], wd, b, p[k + 1]));
        assert(m.value(g[k][i]) == x);
        assert(b.m@.len() == scalar::terms(b.m@).len());
        assert(b.v@.len() == scalar::terms(b.v@).len());
        exact::lemma_power(b1, n);
        exact::lemma_power(b2, n);
        exact::lemma_power(b2, k as nat);
        exact::lemma_square(x);
        exact::lemma_orders(0real, 1real - exact::power(b2, k as nat), xx);
        exact::lemma_units(xx);
        let d1 = 1real - exact::power(b1, n);
        let d2 = 1real - exact::power(b2, n);
        let mhat = exact::over(m.value(b.m@[i]@), d1);
        let vhat = exact::over(m.value(b.v@[i]@), d2);
        exact::lemma_divides(m.value(b.m@[i]@), d1);
        exact::lemma_divides(m.value(b.v@[i]@), d2);
        law_step_goes_against_moment(
            m,
            a,
            p[k],
            g[k],
            decay,
            lr[k],
            wd,
            b,
            p[k + 1],
            i,
            mhat,
            vhat,
        );
        lemma_closer(b1, exact::power(b1, k as nat), x);
        lemma_closer(b2, exact::power(b2, k as nat), xx);
    }
}

/// A number that is `1 - w` of `x` and keeps the part `b` of its distance to `x` becomes
/// `1 - b * w` of it.
proof fn lemma_closer(b: real, w: real, x: real)
    ensures
        x + exact::times(b, exact::times(1real - w, x) - x) == exact::times(
            1real - exact::times(b, w),
            x,
        ),
{
    exact::lemma_distributes(x, 1real, w);
    exact::lemma_units(x);
    exact::lemma_negates(b, exact::times(w, x));
    exact::lemma_associates(b, w, x);
    exact::lemma_distributes(x, 1real, exact::times(b, w));
    assert(exact::times(1real - w, x) - x == -exact::times(w, x));
}

/// With moments that start at zero and a gradient that stays the same, every step is the same:
/// the corrected moments are the gradient and its square, so the parameter, shrunk where it
/// decays, moves against the gradient by `lr * |x| / (|x| + eps)`: by the learning rate, up to
/// `eps`.
pub proof fn law_constant_gradient_moves_by_rate<T: Scalar>(
    m: Exact<T>,
    at: Seq<AdamW<T>>,
    p: Seq<Seq<Term<T>>>,
    g: Seq<Seq<Term<T>>>,
    decay: Seq<bool>,
    lr: Seq<Term<T>>,
    wd: Term<T>,
    i: int,
    x: real,
    n: int,
)
    requires
        m.ok(),
        m.takes_powers(),
        m.takes_roots(),
        steps_in_turn(at, p, g, decay, lr, wd),
        0 <= i < p[0].len(),
        p[0].len() <= at[0].m@.len(),
        p[0].len() <= at[0].v@.len(),
        at[0].t == 0,
        m.value(at[0].m@[i]@) == 0real,
        m.value(at[0].v@[i]@) == 0real,
        0real <= m.value(at[0].beta1@) < 1real,
        0real <= m.value(at[0].beta2@) < 1real,
        m.value(at[0].eps@) > 0real,
        g.len() <= i32::MAX,
        forall|k: int| 0 <= k < g.len() ==> m.value(#[trigger] g[k][i]) == x,
        0 <= n < g.len(),
    ensures
        ({
            let kept = if decay[i] {
                exact::times(
                    m.value(p[n][i]),
                    1real - exact::times(m.value(lr[n]), m.value(wd)),
                )
            } else {
                m.value(p[n][i])
            };
            let size = if x < 0real {
                -x
            } else {
                x
            };
            exact::times(kept - m.value(p[n + 1][i]), size + m.value(at[0].eps@)) == exact::times(
                m.value(lr[n]),
                x,
            )
        }),
{
    lemma_moments_of_constant(m, at, p, g, decay, lr, wd, i, x, n as nat);
    lemma_moments_of_constant(m, at, p, g, decay, lr, wd, i, x, (n + 1) as nat);
    let (b1, b2) = (m.value(at[0].beta1@), m.value(at[0].beta2@));
    let xx = exact::times(x, x);
    exact::lemma_power(b2, n as nat);
    exact::lemma_square(x);
    exact::lemma_orders(0real, 1real - exact::power(b2, n as nat), xx);
    exact::lemma_units(xx);
    exact::lemma_commutes(x, 1real - exact::power(b1, (n + 1) as nat));
    exact::lemma_commutes(xx, 1real - exact::power(b2, (n + 1) as nat));
    law_step_goes_against_moment(
        m,
        at[n],
        p[n],
        g[n],
        decay,
        lr[n],
        wd,
        at[n + 1],
        p[n + 1],
        i,
        x,
        xx,
    );
    exact::lemma_negates(x, x);
    exact::lemma_negates(x, -x);
    let size = if x < 0real {
        -x
    } else {
        x
    };
    assert(exact::times(size, size) == xx);
}

} // verus!
