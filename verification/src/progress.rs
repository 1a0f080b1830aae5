//! What training steps and estimates mean, read in exact arithmetic.
use crate::adjoint;
use crate::attention::Dims;
use crate::backward;
use crate::block::DropTerms;
use crate::cache;
use crate::cache::Cache;
use crate::data;
use crate::data::Dataset;
use crate::decay;
use crate::descent;
use crate::dropping;
use crate::exact;
use crate::exact::Exact;
use crate::forward;
use crate::gradient;
use crate::layout;
use crate::layout::GptConfig;
use crate::loss_slopes;
use crate::meaning;
use crate::model;
use crate::optim;
use crate::rng;
use crate::scalar;
use crate::scalar::{Scalar, Term, WideTerm};
use crate::train;
use crate::train::{TrainArgs, Trainer};
use crate::wiring;
use vstd::prelude::*;

verus! {

proof fn lemma_loss_total<T>(m: Exact<T>, losses: Seq<Term<T>>, n: nat)
    requires
        m.narrows(),
    ensures
        m.wide(train::loss_total(losses, n)) == exact::sum(n as int, |i: int| m.value(losses[i])),
    decreases n,
{
    if n > 0 {
        lemma_loss_total(m, losses, (n - 1) as nat);
    }
}

/// The mean of losses, times their number, is their sum.
pub proof fn law_mean_of_losses<T>(m: Exact<T>, losses: Seq<Term<T>>)
    requires
        m.narrows(),
        1 <= losses.len() <= usize::MAX,
    ensures
        exact::times(m.wide(train::loss_mean(losses)), losses.len() as real) == exact::sum(
            losses.len() as int,
            |i: int| m.value(losses[i]),
        ),
{
    let n = losses.len();
    lemma_loss_total(m, losses, n);
    let total = train::loss_total(losses, n);
    let mean = train::loss_mean(losses);
    assert(mean == scalar::over_count(total, n as usize));
    assert(m.wide(mean) == exact::over(m.wide(total), n as real));
    exact::lemma_divides(m.wide(total), n as real);
}

/// An estimate is the mean of as many losses as asked for, each measured without dropout on a
/// batch of its own; no two batches share a draw.
pub proof fn law_estimate_is_mean_over_batches<T: Scalar>(
    m: Exact<T>,
    params: Seq<Term<T>>,
    cfg: GptConfig,
    part: Seq<u16>,
    batch_size: nat,
    n: nat,
    s: rng::State,
    mean: WideTerm<T>,
)
    requires
        m.narrows(),
        1 <= n <= usize::MAX,
        train::is_estimate(params, cfg, part, batch_size, n, s, mean),
    ensures
        exists|losses: Seq<Term<T>>|
            {
                &&& losses.len() == n
                &&& #[trigger] train::are_losses(params, cfg, part, batch_size, s, losses)
                &&& exact::times(m.wide(mean), n as real) == exact::sum(
                    n as int,
                    |i: int| m.value(losses[i]),
                )
            },
{
    let losses = choose|losses: Seq<Term<T>>| #[trigger]
        train::are_losses(params, cfg, part, batch_size, s, losses) && losses.len() == n && mean
            == train::loss_mean(losses);
    law_mean_of_losses(m, losses);
}

/// Without decay the learning rate stays what it is; with decay it is that of the schedule,
/// between the warmup and the end of the decay never above the full rate nor below the
/// minimum.
pub proof fn law_training_rate<T>(m: Exact<T>, args: &TrainArgs, it: usize)
    requires
        m.ok(),
        args.decay_lr ==> {
            &&& m.takes_cosines()
            &&& 2real * (m.bits)(0x3f00_0000) == 1real
            &&& (m.bits)(args.min_lr) <= (m.bits)(args.learning_rate)
            &&& args.warmup_iters < args.lr_decay_iters
        },
    ensures
        !args.decay_lr ==> m.value(args.rate::<T>(it)) == (m.bits)(args.learning_rate),
        args.decay_lr && it < args.warmup_iters ==> exact::times(
            m.value(args.rate::<T>(it)),
            (args.warmup_iters + 1) as real,
        ) == exact::times((m.bits)(args.learning_rate), (it + 1) as real),
        args.decay_lr && it >= args.warmup_iters ==> (m.bits)(args.min_lr) <= m.value(
            args.rate::<T>(it),
        ) <= (m.bits)(args.learning_rate),
        args.decay_lr && it == args.warmup_iters ==> m.value(args.rate::<T>(it)) == (m.bits)(
            args.learning_rate,
        ),
        args.decay_lr && it >= args.lr_decay_iters ==> m.value(args.rate::<T>(it)) == (m.bits)(
            args.min_lr,
        ),
{
    let lr: Term<T> = Term::Bits(args.learning_rate);
    let least: Term<T> = Term::Bits(args.min_lr);
    assert(m.value(lr) == (m.bits)(args.learning_rate));
    assert(m.value(least) == (m.bits)(args.min_lr));
    let (w, d) = (args.warmup_iters, args.lr_decay_iters);
    if args.decay_lr {
        if it < w {
            descent::law_lr_warms_up(m, it, w, d, lr, least);
        } else {
            descent::law_lr_never_rises(m, it, it, w, d, lr, least);
        }
    }
}

/// How the gradients that a step uses come from those of the loss: the same, or, where their
/// norm is above the limit, all scaled down by one positive factor.
pub open spec fn one_factor<T>(m: Exact<T>, g: Seq<Term<T>>, h: Seq<Term<T>>, f: real) -> bool {
    &&& h.len() == g.len()
    &&& 0real < f <= 1real
    &&& forall|i: int|
        0 <= i < g.len() ==> m.value(#[trigger] h[i]) == exact::times(m.value(g[i]), f)
}

proof fn lemma_one_factor<T: Scalar>(
    m: Exact<T>,
    g: Seq<Term<T>>,
    max_norm: Term<T>,
    h: Seq<Term<T>>,
) -> (f: real)
    requires
        m.ok(),
        m.narrows(),
        m.takes_roots(),
        1000000real * (m.bits)(0x3586_37bd) == 1real,
        exact::less_is_exact(m, scalar::zero(), max_norm),
        exact::less_is_exact(m, max_norm, descent::norm_of(g)),
        optim::may_clip(g, max_norm, h),
    ensures
        one_factor(m, g, h, f),
{
    descent::law_clipping_limits_norm(m, g, max_norm, h);
    let x = m.value(max_norm);
    let n = m.value(descent::norm_of(g));
    let e = 1real / 1000000real;
    if 0real < x < n {
        let f = exact::over(x, n + e);
        exact::lemma_divides(x, n + e);
        exact::lemma_units(n + e);
        exact::lemma_orders(f, 0real, n + e);
        exact::lemma_orders(1real, f, n + e);
        assert forall|i: int| 0 <= i < g.len() implies m.value(#[trigger] h[i]) == exact::times(
            m.value(g[i]),
            f,
        ) by {
            exact::lemma_associates(m.value(g[i]), f, n + e);
            exact::lemma_cancels(
                m.value(h[i]),
                exact::times(m.value(g[i]), f),
                n + e,
            );
        }
        f
    } else {
        assert forall|i: int| 0 <= i < g.len() implies m.value(#[trigger] h[i]) == exact::times(
            m.value(g[i]),
            1real,
        ) by {
            exact::lemma_units(m.value(g[i]));
        }
        1real
    }
}

proof fn lemma_not_above(n: int, f: spec_fn(int) -> real)
    requires
        forall|i: int| 0 <= i < n ==> #[trigger] f(i) <= 0real,
    ensures
        exact::sum(n, f) <= 0real,
        forall|i: int| 0 <= i < n ==> exact::sum(n, f) <= #[trigger] f(i),
    decreases n,
{
    if n > 0 {
        lemma_not_above(n - 1, f);
        assert(f(n - 1) <= 0real);
    }
}

/// The first step of a run without weight decay goes downhill: the change of the parameters,
/// each times the gradient of the loss there, adds up to no more than zero, and to less where
/// any gradient is not zero. So the loss falls along the step.
pub proof fn law_first_step_goes_downhill<T: Scalar>(
    m: Exact<T>,
    args: &TrainArgs,
    dataset: &Dataset,
    a: Trainer<T>,
    loss: Term<T>,
    lr: Term<T>,
    b: Trainer<T>,
    g: Seq<Term<T>>,
)
    requires
        m.ok(),
        m.narrows(),
        m.takes_roots(),
        m.takes_powers(),
        1000000real * (m.bits)(0x3586_37bd) == 1real,
        (m.bits)(args.weight_decay) == 0real,
        train::is_step(args, dataset, a, loss, lr, b),
        train::are_gradients(
            scalar::terms(a.model.params@),
            a.model.cfg,
            a.x@,
            a.y@,
            a.rng@,
            loss,
            g,
        ),
        optim::may_clip(g, Term::Bits(args.grad_clip), scalar::terms(b.model.grads@)),
        exact::less_is_exact(m, scalar::zero(), Term::Bits(args.grad_clip)),
        exact::less_is_exact(m, Term::Bits(args.grad_clip), descent::norm_of(g)),
        g.len() == a.model.params@.len(),
        a.optimizer.m@.len() == g.len(),
        a.optimizer.v@.len() == g.len(),
        a.optimizer.t == 0,
        forall|i: int| 0 <= i < g.len() ==> m.value((#[trigger] a.optimizer.m@[i])@) == 0real,
        forall|i: int| 0 <= i < g.len() ==> m.value((#[trigger] a.optimizer.v@[i])@) == 0real,
        0real <= m.value(a.optimizer.beta1@) < 1real,
        0real <= m.value(a.optimizer.beta2@) < 1real,
        m.value(a.optimizer.eps@) > 0real,
        m.value(lr) > 0real,
    ensures
        b.model.params@.len() == g.len(),
        ({
            let change = |i: int|
                exact::times(
                    m.value(g[i]),
                    m.value(b.model.params@[i]@) - m.value(a.model.params@[i]@),
                );
            &&& exact::sum(g.len() as int, change) <= 0real
            &&& (exists|i: int| 0 <= i < g.len() && m.value(#[trigger] g[i]) != 0real)
                ==> exact::sum(g.len() as int, change) < 0real
        }),
{
    let n = g.len() as int;
    let p = scalar::terms(a.model.params@);
    let q = scalar::terms(b.model.params@);
    let h = scalar::terms(b.model.grads@);
    let clip: Term<T> = Term::Bits(args.grad_clip);
    let wd: Term<T> = Term::Bits(args.weight_decay);
    let f = lemma_one_factor(m, g, clip, h);
    let change = |i: int|
        exact::times(
            m.value(g[i]),
            m.value(b.model.params@[i]@) - m.value(a.model.params@[i]@),
        );
    assert(q.len() == p.len());
    assert forall|i: int| 0 <= i < n implies {
        &&& #[trigger] change(i) <= 0real
        &&& m.value(g[i]) != 0real ==> change(i) < 0real
    } by {
        assert(q[i] == b.model.params@[i]@ && p[i] == a.model.params@[i]@);
        lemma_first_change(m, a, p, h, lr, wd, b, q, i);
        let (x, y) = (m.value(g[i]), m.value(h[i]));
        assert(y == exact::times(x, f));
        exact::lemma_orders(0real, x, f);
        exact::lemma_orders(x, 0real, f);
        exact::lemma_units(f);
        let d = m.value(q[i]) - m.value(p[i]);
        exact::lemma_units(d);
        if x > 0real {
            exact::lemma_orders(d, 0real, x);
            exact::lemma_commutes(x, d);
            exact::lemma_units(x);
        } else if x < 0real {
            exact::lemma_orders(x, 0real, d);
        }
    }
    lemma_not_above(n, change);
    if exists|i: int| 0 <= i < n && m.value(#[trigger] g[i]) != 0real {
        let i = choose|i: int| 0 <= i < n && m.value(#[trigger] g[i]) != 0real;
        assert(exact::sum(n, change) <= change(i));
    }
}

/// The first step moves a parameter without decay against its gradient.
proof fn lemma_first_change<T: Scalar>(
    m: Exact<T>,
    a: Trainer<T>,
    p: Seq<Term<T>>,
    h: Seq<Term<T>>,
    lr: Term<T>,
    wd: Term<T>,
    b: Trainer<T>,
    q: Seq<Term<T>>,
    i: int,
)
    requires
        m.ok(),
        m.takes_roots(),
        m.takes_powers(),
        m.value(wd) == 0real,
        optim::steps(a.optimizer, p, h, a.model.decay@, lr, wd, b.optimizer, q),
        0 <= i < p.len(),
        p.len() <= a.optimizer.m@.len(),
        p.len() <= a.optimizer.v@.len(),
        a.optimizer.t == 0,
        m.value(a.optimizer.m@[i]@) == 0real,
        m.value(a.optimizer.v@[i]@) == 0real,
        0real <= m.value(a.optimizer.beta1@) < 1real,
        0real <= m.value(a.optimizer.beta2@) < 1real,
        m.value(a.optimizer.eps@) > 0real,
        m.value(lr) > 0real,
    ensures
        m.value(h[i]) > 0real ==> m.value(q[i]) < m.value(p[i]),
        m.value(h[i]) < 0real ==> m.value(q[i]) > m.value(p[i]),
        m.value(h[i]) == 0real ==> m.value(q[i]) == m.value(p[i]),
{
    let (b1, b2) = (m.value(a.optimizer.beta1@), m.value(a.optimizer.beta2@));
    let (m1, v1) = (m.value(b.optimizer.m@[i]@), m.value(b.optimizer.v@[i]@));
    exact::lemma_power(b1, 1);
    exact::lemma_power(b2, 1);
    let (d1, d2) = (1real - exact::power(b1, 1), 1real - exact::power(b2, 1));
    exact::lemma_divides(m1, d1);
    exact::lemma_divides(v1, d2);
    descent::law_step_goes_against_moment(
        m,
        a.optimizer,
        p,
        h,
        a.model.decay@,
        lr,
        wd,
        b.optimizer,
        q,
        i,
        exact::over(m1, d1),
        exact::over(v1, d2),
    );
    let y = m.value(h[i]);
    // The first moment is the part `1 - beta1` of the gradient.
    exact::lemma_negates(b1, y);
    exact::lemma_distributes(y, 1real, b1);
    exact::lemma_units(y);
    assert(m1 == exact::times(1real - b1, y));
    exact::lemma_orders(0real, y, 1real - b1);
    exact::lemma_orders(y, 0real, 1real - b1);
    exact::lemma_commutes(y, 1real - b1);
    exact::lemma_units(1real - b1);
    // Decay at the rate zero changes nothing.
    exact::lemma_units(m.value(lr));
    exact::lemma_units(m.value(p[i]));
}

/// Gradients within the limit `x` of their norm stay; others are scaled so that their norm,
/// times `n + 1e-6`, is the limit times the norm `n` that they had.
pub open spec fn limited<T>(m: Exact<T>, g: Seq<Term<T>>, x: real, h: Seq<Term<T>>) -> bool {
    let n = m.value(descent::norm_of(g));
    let e = 1real / 1000000real;
    if 0real < x < n {
        &&& h.len() == g.len()
        &&& exact::times(m.value(descent::norm_of(h)), n + e) == exact::times(x, n)
        &&& forall|i: int|
            0 <= i < g.len() ==> exact::times(m.value(#[trigger] h[i]), n + e) == exact::times(
                m.value(g[i]),
                x,
            )
    } else {
        h == g
    }
}

/// An iteration of training: the gradients of the loss of the batch, limited in their norm,
/// draw the moments towards them, and each parameter, shrunk by the weight decay where its
/// flag is set, loses the learning rate times the corrected first moment over the root of the
/// corrected second.
pub proof fn law_iteration_takes_a_step<T: Scalar>(
    m: Exact<T>,
    args: &TrainArgs,
    dataset: &Dataset,
    a: Trainer<T>,
    loss: Term<T>,
    lr: Term<T>,
    b: Trainer<T>,
    i: int,
    mhat: real,
    vhat: real,
    s: real,
)
    requires
        m.ok(),
        m.narrows(),
        m.takes_roots(),
        m.takes_powers(),
        1000000real * (m.bits)(0x3586_37bd) == 1real,
        train::is_step(args, dataset, a, loss, lr, b),
        exact::less_is_exact(m, scalar::zero(), Term::Bits(args.grad_clip)),
        forall|g: Seq<Term<T>>| #[trigger]
            train::are_gradients(
                scalar::terms(a.model.params@),
                a.model.cfg,
                a.x@,
                a.y@,
                a.rng@,
                loss,
                g,
            ) ==> exact::less_is_exact(m, Term::Bits(args.grad_clip), descent::norm_of(g)),
        0 <= i < a.model.params@.len(),
        a.optimizer.m@.len() >= a.model.params@.len(),
        a.optimizer.v@.len() >= a.model.params@.len(),
        b.model.grads@.len() >= a.model.params@.len(),
        b.optimizer.t <= i32::MAX,
        0real <= m.value(a.optimizer.beta1@) < 1real,
        0real <= m.value(a.optimizer.beta2@) < 1real,
        m.value(a.optimizer.eps@) > 0real,
        m.value(a.optimizer.v@[i]@) >= 0real,
        exact::times(
            mhat,
            1real - exact::power(m.value(a.optimizer.beta1@), b.optimizer.t as nat),
        ) == m.value(b.optimizer.m@[i]@),
        exact::times(
            vhat,
            1real - exact::power(m.value(a.optimizer.beta2@), b.optimizer.t as nat),
        ) == m.value(b.optimizer.v@[i]@),
        s >= 0real,
        exact::times(s, s) == vhat,
    ensures
        exists|g: Seq<Term<T>>|
            {
                &&& #[trigger] train::are_gradients(
                    scalar::terms(a.model.params@),
                    a.model.cfg,
                    a.x@,
                    a.y@,
                    a.rng@,
                    loss,
                    g,
                )
                &&& limited(m, g, (m.bits)(args.grad_clip), scalar::terms(b.model.grads@))
            },
        ({
            let h = m.value(b.model.grads@[i]@);
            let p = m.value(a.model.params@[i]@);
            let kept = if a.model.decay@[i] {
                exact::times(
                    p,
                    1real - exact::times(m.value(lr), (m.bits)(args.weight_decay)),
                )
            } else {
                p
            };
            &&& m.value(b.optimizer.m@[i]@) - h == exact::times(
                m.value(a.optimizer.beta1@),
                m.value(a.optimizer.m@[i]@) - h,
            )
            &&& m.value(b.optimizer.v@[i]@) - exact::times(h, h) == exact::times(
                m.value(a.optimizer.beta2@),
                m.value(a.optimizer.v@[i]@) - exact::times(h, h),
            )
            &&& exact::times(
                kept - m.value(b.model.params@[i]@),
                s + m.value(a.optimizer.eps@),
            ) == exact::times(m.value(lr), mhat)
        }),
        b.optimizer.t == a.optimizer.t + 1,
{
    let p = scalar::terms(a.model.params@);
    let q = scalar::terms(b.model.params@);
    let h = scalar::terms(b.model.grads@);
    let clip: Term<T> = Term::Bits(args.grad_clip);
    let wd: Term<T> = Term::Bits(args.weight_decay);
    assert(m.value(clip) == (m.bits)(args.grad_clip));
    assert(m.value(wd) == (m.bits)(args.weight_decay));
    let g = choose|g: Seq<Term<T>>| #[trigger]
        train::are_gradients(p, a.model.cfg, a.x@, a.y@, a.rng@, loss, g) && optim::may_clip(
            g,
            clip,
            h,
        );
    assert(train::are_gradients(p, a.model.cfg, a.x@, a.y@, a.rng@, loss, g));
    descent::law_clipping_limits_norm(m, g, clip, h);
    descent::law_step_goes_against_moment(
        m,
        a.optimizer,
        p,
        h,
        a.model.decay@,
        lr,
        wd,
        b.optimizer,
        q,
        i,
        mhat,
        vhat,
    );
    assert(q.len() == p.len());
    assert(q[i] == b.model.params@[i]@ && p[i] == a.model.params@[i]@);
    assert(h[i] == b.model.grads@[i]@);
}

/// A run starts with moments of zero and no step taken, with the betas that were asked for, and
/// with 1e-8 to keep divisors from zero.
pub proof fn law_run_starts_at_rest<T: Scalar>(
    m: Exact<T>,
    args: &TrainArgs,
    dataset: &Dataset,
    a: Trainer<T>,
    i: int,
)
    requires
        m.ok(),
        100000000real * (m.bits)(0x322b_cc77) == 1real,
        a.started(args, dataset),
        0 <= i < a.model.params@.len(),
    ensures
        a.optimizer.t == 0,
        a.optimizer.m@.len() == a.model.params@.len(),
        a.optimizer.v@.len() == a.model.params@.len(),
        m.value(a.optimizer.m@[i]@) == 0real,
        m.value(a.optimizer.v@[i]@) == 0real,
        m.value(a.optimizer.beta1@) == (m.bits)(args.beta1),
        m.value(a.optimizer.beta2@) == (m.bits)(args.beta2),
        m.value(a.optimizer.eps@) == 1real / 100000000real,
{
    assert(scalar::terms(a.optimizer.m@)[i] == scalar::zero::<T>());
    assert(scalar::terms(a.optimizer.v@)[i] == scalar::zero::<T>());
    assert(m.value(scalar::zero::<T>()) == 0real);
}

/// Every weight that decays is drawn, each from two words of the generator, and nothing else.
pub proof fn law_weights_take_two_draws(cfg: GptConfig)
    ensures
        layout::initial_draws(cfg) == 2 * decay::set_count(layout::decay_flags(cfg)),
{
    decay::law_decayed_count(cfg);
    let q = cfg.n_embd as nat * cfg.n_embd as nat;
    let n = cfg.n_layer as nat;
    assert(n * (24 * q) == 2 * (n * (12 * q))) by (nonlinear_arith);
}

/// How many numbers a pass in training over `n` tokens draws.
pub open spec fn draws_of_pass(cfg: GptConfig, n: nat) -> nat {
    if forward::drops(cfg, true) {
        dropping::drawn_before(cache::dims_of(cfg, n), cfg.n_layer as nat)
    } else {
        0
    }
}

/// An iteration draws on where it stands: its pass takes the draws of dropout, the next batch
/// those behind them, one for each of its items, and the generator is left behind these.
pub proof fn law_iteration_draws_on<T: Scalar>(
    args: &TrainArgs,
    dataset: &Dataset,
    a: Trainer<T>,
    loss: Term<T>,
    lr: Term<T>,
    b: Trainer<T>,
)
    requires
        train::is_step(args, dataset, a, loss, lr, b),
    ensures
        ({
            let k = draws_of_pass(a.model.cfg, a.x@.len());
            let s = rng::advance_by(a.rng@, k);
            let (n, t) = (args.batch_size as nat, args.block_size as nat);
            &&& b.x@ == data::batch_inputs(dataset.train@, s, n, t)
            &&& b.y@ == data::batch_targets(dataset.train@, s, n, t)
            &&& b.rng@ == rng::advance_by(a.rng@, k + n)
            &&& b.model.decay == a.model.decay
        }),
{
    let cfg = a.model.cfg;
    let d = cache::dims_of(cfg, a.x@.len());
    let drop = forward::block_drop::<T>(cfg, true);
    let k = draws_of_pass(cfg, a.x@.len());
    if drop.on {
        dropping::law_masks_are_drawn_in_turn(a.rng@, d, drop, cfg.n_layer as nat);
    } else {
        lemma_nothing_drawn(a.rng@, d, drop, cfg.n_layer as nat);
    }
    rng::law_draws_add_up(a.rng@, k, args.batch_size as nat);
}

proof fn lemma_nothing_drawn<T>(s: rng::State, d: Dims, drop: DropTerms<T>, l: nat)
    requires
        !drop.on,
    ensures
        forward::state_at(s, d, drop, l) == s,
    decreases l,
{
    if l > 0 {
        lemma_nothing_drawn(s, d, drop, (l - 1) as nat);
    }
}

/// The gradients that an iteration takes are the derivative of the loss that it reports, of a
/// pass in training, with dropout: at whatever rates the parameters change, the loss changes
/// at the rate that the gradients tell.
pub proof fn law_iteration_follows_its_loss<T: Scalar>(
    m: Exact<T>,
    params: Seq<Term<T>>,
    cfg: GptConfig,
    x: Seq<u32>,
    y: Seq<u32>,
    s: rng::State,
    loss: Term<T>,
    g: Seq<Term<T>>,
)
    requires
        m.ok(),
        model::buildable(cfg),
        params.len() == layout::total_len(cfg),
        forward::runnable(cfg, x),
        x.len() <= usize::MAX,
        forward::are_targets(cfg, x, y),
        train::are_gradients(params, cfg, x, y, s, loss, g),
        forward::drops(cfg, true) ==> (m.bits)(cfg.dropout) != 1real,
        forall|k: Cache<T>| #[trigger]
            forward::forward_done(params, cfg, x, Some(y), true, s, k, loss)
                ==> loss_slopes::told(m, scalar::terms(k.probs@), y, cfg.vocab_size as int),
    ensures
        exists|k: Cache<T>| #[trigger]
            forward::forward_done(params, cfg, x, Some(y), true, s, k, loss),
        exact::sum(
            params.len() as int,
            |i: int| exact::times(m.value(g[i]), m.rate(params[i])),
        ) == m.rate(loss),
{
    let n = params.len() as int;
    let zeros = layout::zeros::<T>(layout::total_len(cfg));
    let k = choose|k: Cache<T>| #[trigger]
        forward::forward_done(params, cfg, x, Some(y), true, s, k, loss) && g
            == backward::backward_grads(params, cfg, k, y, zeros);
    gradient::law_backward_is_gradient(m, params, cfg, x, y, true, s, k, loss, zeros);
    let z = |i: int| exact::times(m.value(zeros[i]), m.rate(params[i]));
    assert(m.value(scalar::zero::<T>()) == 0real);
    assert forall|i: int| 0 <= i < n implies #[trigger] z(i) == 0real by {
        exact::lemma_units(m.rate(params[i]));
    }
    exact::lemma_none(n, z);
    assert(adjoint::pair(m, zeros, params, n) == 0real);
}

/// A loss for an estimate is measured without dropout: no number of the pass is dropped or
/// scaled, and the loss, times the number of targets, is the sum of minus the logarithms of
/// their probabilities.
pub proof fn law_estimates_drop_nothing<T: Scalar>(
    m: Exact<T>,
    params: Seq<Term<T>>,
    cfg: GptConfig,
    x: Seq<u32>,
    y: Seq<u32>,
    loss: Term<T>,
)
    requires
        m.ok(),
        1 <= x.len() <= usize::MAX,
        forward::are_targets(cfg, x, y),
        train::is_loss(params, cfg, x, y, loss),
    ensures
        exists|s: rng::State, k: Cache<T>|
            {
                &&& #[trigger] forward::forward_done(params, cfg, x, Some(y), false, s, k, loss)
                &&& k.emb_mask@.len() == 0
                &&& exact::times(m.value(loss), x.len() as real) == exact::sum(
                    x.len() as int,
                    |i: int| -meaning::log_of(m, m.value(k.probs@[i * cfg.vocab_size + y[i]]@)),
                )
            },
{
    let (s, k) = choose|s: rng::State, k: Cache<T>| #[trigger]
        forward::forward_done(params, cfg, x, Some(y), false, s, k, loss);
    wiring::law_loss_of_pass(m, params, cfg, x, y, false, s, k, loss);
    assert(!forward::drops(cfg, false));
}

} // verus!
