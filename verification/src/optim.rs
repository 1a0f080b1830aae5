//! The AdamW optimiser with decoupled weight decay, the learning-rate schedule and gradient
//! clipping.
use crate::layout;
use crate::model::zero_vec;
use crate::scalar;
use crate::scalar::{Num, Scalar, Term, Unary, WideNum, WideTerm};
use vstd::prelude::*;

verus! {

/// The state of the optimiser: two moments for each parameter and the number of steps.
pub struct AdamW<T: Scalar> {
    pub m: Vec<Num<T>>,
    pub v: Vec<Num<T>>,
    pub t: u64,
    pub beta1: Num<T>,
    pub beta2: Num<T>,
    pub eps: Num<T>,
}

/// `beta * x + (1 - beta) * y`.
pub open spec fn blend<T>(beta: Term<T>, x: Term<T>, y: Term<T>) -> Term<T> {
    scalar::sum(
        scalar::product(beta, x),
        scalar::product(scalar::difference(scalar::one(), beta), y),
    )
}

/// The second moment after a step: `beta * v + (1 - beta) * g * g`.
pub open spec fn second_moment<T>(beta: Term<T>, v: Term<T>, g: Term<T>) -> Term<T> {
    scalar::sum(
        scalar::product(beta, v),
        scalar::product(
            scalar::product(scalar::difference(scalar::one(), beta), g),
            g,
        ),
    )
}

/// The correction of a moment for its start at zero: `1 - beta^t`.
pub open spec fn correction<T>(beta: Term<T>, t: u64) -> Term<T> {
    scalar::difference(scalar::one(), scalar::apply1(Unary::Power(t as i32), beta))
}

/// The parameters of a step.
pub struct Step<T> {
    pub beta1: Term<T>,
    pub beta2: Term<T>,
    pub eps: Term<T>,
    pub lr: Term<T>,
    pub wd: Term<T>,
    /// The number of the step, from 1 on.
    pub t: u64,
}

/// A parameter after a step, given its moments after the step.
pub open spec fn stepped<T>(k: Step<T>, p: Term<T>, m: Term<T>, v: Term<T>, decay: bool) -> Term<T> {
    let kept = if decay {
        scalar::product(p, scalar::difference(scalar::one(), scalar::product(k.lr, k.wd)))
    } else {
        p
    };
    let mhat = scalar::quotient(m, correction(k.beta1, k.t));
    let vhat = scalar::quotient(v, correction(k.beta2, k.t));
    scalar::difference(
        kept,
        scalar::quotient(
            scalar::product(k.lr, mhat),
            scalar::sum(scalar::apply1(Unary::Sqrt, vhat), k.eps),
        ),
    )
}

/// Weight decay makes no difference to a parameter whose flag is not set.
pub proof fn law_decay_only_where_flagged<T>(
    k: Step<T>,
    wd: Term<T>,
    p: Term<T>,
    m: Term<T>,
    v: Term<T>,
)
    ensures
        stepped(k, p, m, v, false) == stepped(Step { wd, ..k }, p, m, v, false),
{
}

/// The first moments after a step on `n` parameters.
pub open spec fn first_moments<T>(
    beta: Term<T>,
    m: Seq<Term<T>>,
    g: Seq<Term<T>>,
    n: nat,
) -> Seq<Term<T>> {
    Seq::new(
        m.len(),
        |i: int|
            if i < n {
                blend(beta, m[i], g[i])
            } else {
                m[i]
            },
    )
}

/// The second moments after a step on `n` parameters.
pub open spec fn second_moments<T>(
    beta: Term<T>,
    v: Seq<Term<T>>,
    g: Seq<Term<T>>,
    n: nat,
) -> Seq<Term<T>> {
    Seq::new(
        v.len(),
        |i: int|
            if i < n {
                second_moment(beta, v[i], g[i])
            } else {
                v[i]
            },
    )
}

/// The parameters after a step, given the moments after the step.
pub open spec fn all_stepped<T>(
    k: Step<T>,
    p: Seq<Term<T>>,
    m: Seq<Term<T>>,
    v: Seq<Term<T>>,
    decay: Seq<bool>,
) -> Seq<Term<T>> {
    Seq::new(p.len(), |i: int| stepped(k, p[i], m[i], v[i], decay[i]))
}

/// A step takes the optimiser from `a` to `b` and the parameters from `p` to `q`.
pub open spec fn steps<T: Scalar>(
    a: AdamW<T>,
    p: Seq<Term<T>>,
    g: Seq<Term<T>>,
    decay: Seq<bool>,
    lr: Term<T>,
    wd: Term<T>,
    b: AdamW<T>,
    q: Seq<Term<T>>,
) -> bool {
    let k = Step { beta1: a.beta1@, beta2: a.beta2@, eps: a.eps@, lr, wd, t: b.t };
    &&& b.t == a.t + 1
    &&& b.beta1 == a.beta1
    &&& b.beta2 == a.beta2
    &&& b.eps == a.eps
    &&& scalar::terms(b.m@) == first_moments(a.beta1@, scalar::terms(a.m@), g, p.len())
    &&& scalar::terms(b.v@) == second_moments(a.beta2@, scalar::terms(a.v@), g, p.len())
    &&& q == all_stepped(k, p, scalar::terms(b.m@), scalar::terms(b.v@), decay)
}

impl<T: Scalar> AdamW<T> {
    /// An optimiser for `n_params` parameters that has taken no step.
    pub fn new(n_params: usize, beta1: Num<T>, beta2: Num<T>, eps: Num<T>) -> (a: Self)
        ensures
            scalar::terms(a.m@) == layout::zeros::<T>(n_params as nat),
            scalar::terms(a.v@) == layout::zeros::<T>(n_params as nat),
            a.m@.len() == n_params,
            a.v@.len() == n_params,
            a.t == 0,
            a.beta1 == beta1,
            a.beta2 == beta2,
            a.eps == eps,
    {
        AdamW { m: zero_vec(n_params), v: zero_vec(n_params), t: 0, beta1, beta2, eps }
    }

    /// One step with the learning rate `lr`; parameters whose flag is set shrink by the
    /// weight decay `wd`.
    pub fn step(
        &mut self,
        params: &mut [Num<T>],
        grads: &[Num<T>],
        decay: &[bool],
        lr: Num<T>,
        wd: Num<T>,
    )
        requires
            old(self).t < u64::MAX,
            old(self).m@.len() >= old(params)@.len(),
            old(self).v@.len() >= old(params)@.len(),
            grads@.len() >= old(params)@.len(),
            decay@.len() >= old(params)@.len(),
        ensures
            steps(
                *old(self),
                scalar::terms(old(params)@),
                scalar::terms(grads@),
                decay@,
                lr@,
                wd@,
                *final(self),
                scalar::terms(final(params)@),
            ),
            final(self).m@.len() == old(self).m@.len(),
            final(self).v@.len() == old(self).v@.len(),
            final(params)@.len() == old(params)@.len(),
    {
        let ghost p0 = params@;
        let ghost k = Step {
            beta1: self.beta1@,
            beta2: self.beta2@,
            eps: self.eps@,
            lr: lr@,
            wd: wd@,
            t: (self.t + 1) as u64,
        };
        self.t = self.t + 1;
        let one: Num<T> = Num::bits(0x3f80_0000);
        let n: i32 = self.t as i32;
        let bc1: Num<T> = one.minus(self.beta1.powi(n));
        let bc2: Num<T> = one.minus(self.beta2.powi(n));
        let (b1, b2, eps) = (self.beta1, self.beta2, self.eps);
        let factor: Num<T> = one.minus(lr.times(wd));
        let len: usize = params.len();
        let mut i: usize = 0;
        while i < len
            invariant
                i <= len,
                len == params@.len(),
                len == p0.len(),
                p0 == old(params)@,
                self.m@.len() == old(self).m@.len(),
                self.v@.len() == old(self).v@.len(),
                self.m@.len() >= len,
                self.v@.len() >= len,
                grads@.len() >= len,
                decay@.len() >= len,
                self.t == old(self).t + 1,
                self.beta1 == old(self).beta1,
                self.beta2 == old(self).beta2,
                self.eps == old(self).eps,
                b1 == self.beta1,
                b2 == self.beta2,
                eps == self.eps,
                one@ == scalar::one::<T>(),
                bc1@ == correction(b1@, self.t),
                bc2@ == correction(b2@, self.t),
                factor@ == scalar::difference(scalar::one(), scalar::product(lr@, wd@)),
                k == (Step { beta1: b1@, beta2: b2@, eps: eps@, lr: lr@, wd: wd@, t: self.t }),
                forall|j: int|
                    0 <= j < self.m@.len() ==> (#[trigger] self.m@[j])@ == if j < i {
                        blend(b1@, old(self).m@[j]@, grads@[j]@)
                    } else {
                        old(self).m@[j]@
                    },
                forall|j: int|
                    0 <= j < self.v@.len() ==> (#[trigger] self.v@[j])@ == if j < i {
                        second_moment(b2@, old(self).v@[j]@, grads@[j]@)
                    } else {
                        old(self).v@[j]@
                    },
                forall|j: int|
                    0 <= j < len ==> (#[trigger] params@[j])@ == if j < i {
                        stepped(
                            k,
                            p0[j]@,
                            blend(b1@, old(self).m@[j]@, grads@[j]@),
                            second_moment(b2@, old(self).v@[j]@, grads@[j]@),
                            decay@[j],
                        )
                    } else {
                        p0[j]@
                    },
            decreases len - i,
        {
            let g: Num<T> = grads[i];
            let mut p: Num<T> = params[i];
            if decay[i] {
                p = p.times(factor);
            }
            let m: Num<T> = b1.times(self.m[i]).plus(one.minus(b1).times(g));
            let v: Num<T> = b2.times(self.v[i]).plus(one.minus(b2).times(g).times(g));
            self.m[i] = m;
            self.v[i] = v;
            let mhat: Num<T> = m.over(bc1);
            let vhat: Num<T> = v.over(bc2);
            params[i] = p.minus(lr.times(mhat).over(vhat.sqrt().plus(eps)));
            i += 1;
        }
        proof {
            let gt = scalar::terms(grads@);
            let mt = scalar::terms(self.m@);
            let vt = scalar::terms(self.v@);
            assert(mt =~= first_moments(b1@, scalar::terms(old(self).m@), gt, len as nat));
            assert(vt =~= second_moments(b2@, scalar::terms(old(self).v@), gt, len as nat));
            assert(scalar::terms(params@) =~= all_stepped(k, scalar::terms(p0), mt, vt, decay@));
        }
    }
}

/// The learning rate of iteration `it`: rising in equal steps during the warmup, then
/// falling along a cosine to `min_lr`, which it keeps after `lr_decay_iters`.
pub open spec fn lr_of<T>(
    it: usize,
    warmup_iters: usize,
    lr_decay_iters: usize,
    learning_rate: Term<T>,
    min_lr: Term<T>,
) -> Term<T> {
    if it < warmup_iters {
        scalar::quotient(
            scalar::product(learning_rate, Term::Count((it + 1) as usize)),
            Term::Count((warmup_iters + 1) as usize),
        )
    } else if it > lr_decay_iters {
        min_lr
    } else {
        let ratio = scalar::quotient(
            Term::Count((it - warmup_iters) as usize),
            Term::Count((lr_decay_iters - warmup_iters) as usize),
        );
        let coeff = scalar::product(
            Term::Bits(0x3f00_0000),
            scalar::sum(
                scalar::one(),
                scalar::apply1(Unary::Cos, scalar::product(Term::Bits(0x4049_0fdb), ratio)),
            ),
        );
        scalar::sum(min_lr, scalar::product(coeff, scalar::difference(learning_rate, min_lr)))
    }
}

/// Behind the decay, and behind the warmup, the learning rate is held at its minimum.
pub proof fn law_lr_is_held<T>(
    it: usize,
    warmup_iters: usize,
    lr_decay_iters: usize,
    learning_rate: Term<T>,
    min_lr: Term<T>,
)
    requires
        it >= warmup_iters,
        it > lr_decay_iters,
    ensures
        lr_of(it, warmup_iters, lr_decay_iters, learning_rate, min_lr) == min_lr,
{
}

/// The learning rate of iteration `it`.
pub fn get_lr<T: Scalar>(
    it: usize,
    warmup_iters: usize,
    lr_decay_iters: usize,
    learning_rate: Num<T>,
    min_lr: Num<T>,
) -> (lr: Num<T>)
    requires
        warmup_iters < usize::MAX,
    ensures
        lr@ == lr_of(it, warmup_iters, lr_decay_iters, learning_rate@, min_lr@),
{
    if it < warmup_iters {
        return learning_rate.times(Num::count(it + 1)).over(Num::count(warmup_iters + 1));
    }
    if it > lr_decay_iters {
        return min_lr;
    }
    let ratio: Num<T> = Num::count(it - warmup_iters).over(
        Num::count(lr_decay_iters - warmup_iters),
    );
    let one: Num<T> = Num::bits(0x3f80_0000);
    let coeff: Num<T> = Num::bits(0x3f00_0000).times(
        one.plus(Num::bits(0x4049_0fdb).times(ratio).cos()),
    );
    min_lr.plus(coeff.times(learning_rate.minus(min_lr)))
}

/// The sum of the squares of the first `n` numbers, in higher precision.
pub open spec fn squares<T>(x: Seq<Term<T>>, n: nat) -> WideTerm<T>
    decreases n,
{
    if n == 0 {
        WideTerm::Bits(0)
    } else {
        WideTerm::PlusSquare(Box::new(squares(x, (n - 1) as nat)), Box::new(x[n - 1]))
    }
}

/// The numbers times `max_norm / (norm + 1e-6)`.
pub open spec fn clipped<T>(x: Seq<Term<T>>, max_norm: Term<T>, norm: Term<T>) -> Seq<Term<T>> {
    let s = scalar::quotient(max_norm, scalar::sum(norm, Term::Bits(0x3586_37bd)));
    Seq::new(x.len(), |i: int| scalar::product(x[i], s))
}

/// The gradients `g` may be clipped to `h`: where their norm is larger than a `max_norm`
/// above zero they are scaled down, else they stay.
pub open spec fn may_clip<T: Scalar>(g: Seq<Term<T>>, max_norm: Term<T>, h: Seq<Term<T>>) -> bool {
    let norm = scalar::root(squares(g, g.len()));
    let zero = scalar::zero::<T>();
    ||| h == clipped(g, max_norm, norm) && scalar::may_be_less(zero, max_norm, true)
        && scalar::may_be_less(max_norm, norm, true)
    ||| h == g && (scalar::may_be_less(zero, max_norm, false) || scalar::may_be_less(
        max_norm,
        norm,
        false,
    ))
}

/// Returns the norm of all gradients together. Where it is larger than a `max_norm` above
/// zero, the gradients are scaled down to about that norm.
pub fn clip_grad_norm<T: Scalar>(grads: &mut [Num<T>], max_norm: Num<T>) -> (norm: Num<T>)
    ensures
        norm@ == scalar::root(squares(scalar::terms(old(grads)@), old(grads)@.len())),
        may_clip(scalar::terms(old(grads)@), max_norm@, scalar::terms(final(grads)@)),
        final(grads)@.len() == old(grads)@.len(),
{
    let ghost g0 = scalar::terms(grads@);
    let n: usize = grads.len();
    let mut sq: WideNum<T> = WideNum::bits(0);
    let mut i: usize = 0;
    while i < n
        invariant
            i <= n,
            n == grads@.len(),
            scalar::terms(grads@) == g0,
            sq@ == squares(g0, i as nat),
        decreases n - i,
    {
        assert(grads@[i as int]@ == g0[i as int]);
        sq = sq.plus_square(grads[i]);
        i += 1;
    }
    let norm: Num<T> = sq.sqrt().narrow();
    if Num::bits(0).less(max_norm) && max_norm.less(norm) {
        let s: Num<T> = max_norm.over(norm.plus(Num::bits(0x3586_37bd)));
        let mut i: usize = 0;
        while i < n
            invariant
                i <= n,
                n == grads@.len(),
                n == g0.len(),
                forall|j: int|
                    0 <= j < n ==> (#[trigger] grads@[j])@ == if j < i {
                        scalar::product(g0[j], s@)
                    } else {
                        g0[j]
                    },
            decreases n - i,
        {
            grads[i] = grads[i].times(s);
            i += 1;
        }
        assert(scalar::terms(grads@) =~= clipped(g0, max_norm@, norm@));
    }
    norm
}

} // verus!
