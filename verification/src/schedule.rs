//! What a training run does, one action after the other.
//!
//! A run has the iterations 0 to `max_iters`. An iteration may start with an evaluation, which
//! may lead to a checkpoint. Then comes one step of the optimiser, and perhaps a log line.
//! After the last iteration there is one more evaluation and one more checkpoint.
use crate::ieee;
use crate::ieee::{double_lt, is_nan_double};
use vstd::prelude::*;

verus! {

/// What a run does next.
#[derive(Clone, Copy, Debug, PartialEq, Eq, Structural)]
pub enum Action {
    /// Measure the losses.
    Evaluate,
    /// Write a checkpoint.
    Save,
    /// Take a step of the optimiser.
    Step,
    /// Report the iteration.
    Log,
    /// Measure the losses after the last iteration.
    EvaluateLast,
    /// Write the last checkpoint.
    SaveLast,
    /// Nothing more.
    Stop,
}

/// How a run is paced.
#[derive(Clone, Copy, Debug, PartialEq, Eq, Structural)]
pub struct Pace {
    pub max_iters: usize,
    pub eval_interval: usize,
    pub log_interval: usize,
    /// Write a checkpoint at every evaluation, not only where the loss has improved.
    pub always_save: bool,
}

impl Pace {
    /// Both intervals are at least 1.
    pub open spec fn ok(self) -> bool {
        self.eval_interval > 0 && self.log_interval > 0
    }
}

/// Where a run stands.
#[derive(Clone, Copy, Debug, PartialEq, Eq, Structural)]
pub struct Schedule {
    /// The iteration.
    pub it: usize,
    pub action: Action,
    /// The bit pattern of the best validation loss so far, a double.
    pub best: u64,
}

/// The loss that a run starts from, a billion.
pub const NO_LOSS: u64 = 0x41cd_cd65_0000_0000;

/// What an iteration starts with.
pub open spec fn first_action(pace: Pace, it: nat) -> Action {
    if it % pace.eval_interval as nat == 0 {
        Action::Evaluate
    } else {
        Action::Step
    }
}

/// Where a run starts.
pub open spec fn start_of(pace: Pace) -> Schedule {
    Schedule { it: 0, action: first_action(pace, 0), best: NO_LOSS }
}

/// The iteration is done: on to the next, or to the end.
pub open spec fn after_iteration(pace: Pace, s: Schedule) -> Schedule {
    if s.it < pace.max_iters {
        Schedule {
            it: (s.it + 1) as usize,
            action: first_action(pace, (s.it + 1) as nat),
            best: s.best,
        }
    } else {
        Schedule { action: Action::EvaluateLast, ..s }
    }
}

/// The evaluation counts: the loss has improved, or every one counts.
pub open spec fn counts(pace: Pace, best: u64, val_loss: u64) -> bool {
    ieee::double_less(val_loss, best) || pace.always_save
}

/// The smaller of two losses; the other one where one is a NaN.
pub open spec fn smaller(a: u64, b: u64) -> u64 {
    if ieee::double_nan(a) || ieee::double_less(b, a) {
        b
    } else {
        a
    }
}

/// Where a run stands once its action is done. `val_loss` is the validation loss where the
/// action was to measure it, and is of no account where it was not.
pub open spec fn next(pace: Pace, s: Schedule, val_loss: u64) -> Schedule {
    match s.action {
        Action::Evaluate => if counts(pace, s.best, val_loss) {
            Schedule {
                best: val_loss,
                action: if s.it > 0 {
                    Action::Save
                } else {
                    Action::Step
                },
                ..s
            }
        } else {
            Schedule { action: Action::Step, ..s }
        },
        Action::Save => Schedule { action: Action::Step, ..s },
        Action::Step => if s.it as nat % pace.log_interval as nat == 0 {
            Schedule { action: Action::Log, ..s }
        } else {
            after_iteration(pace, s)
        },
        Action::Log => after_iteration(pace, s),
        Action::EvaluateLast => Schedule {
            best: smaller(s.best, val_loss),
            action: Action::SaveLast,
            ..s
        },
        Action::SaveLast => Schedule { action: Action::Stop, ..s },
        Action::Stop => s,
    }
}

impl Schedule {
    /// The start of a run.
    pub fn start(pace: Pace) -> (s: Self)
        requires
            pace.ok(),
        ensures
            s == start_of(pace),
    {
        Schedule { it: 0, action: Action::Evaluate, best: NO_LOSS }
    }

    fn end_iteration(&mut self, pace: Pace)
        requires
            pace.ok(),
        ensures
            *final(self) == after_iteration(pace, *old(self)),
    {
        if self.it < pace.max_iters {
            self.it += 1;
            self.action = if self.it % pace.eval_interval == 0 {
                Action::Evaluate
            } else {
                Action::Step
            };
        } else {
            self.action = Action::EvaluateLast;
        }
    }

    /// The action is done: goes on to the next.
    pub fn advance(&mut self, pace: Pace, val_loss: u64)
        requires
            pace.ok(),
        ensures
            *final(self) == next(pace, *old(self), val_loss),
    {
        match self.action {
            Action::Evaluate => {
                if double_lt(val_loss, self.best) || pace.always_save {
                    self.best = val_loss;
                    self.action = if self.it > 0 {
                        Action::Save
                    } else {
                        Action::Step
                    };
                } else {
                    self.action = Action::Step;
                }
            },
            Action::Save => {
                self.action = Action::Step;
            },
            Action::Step => {
                if self.it % pace.log_interval == 0 {
                    self.action = Action::Log;
                } else {
                    self.end_iteration(pace);
                }
            },
            Action::Log => {
                self.end_iteration(pace);
            },
            Action::EvaluateLast => {
                if is_nan_double(self.best) || double_lt(val_loss, self.best) {
                    self.best = val_loss;
                }
                self.action = Action::SaveLast;
            },
            Action::SaveLast => {
                self.action = Action::Stop;
            },
            Action::Stop => {},
        }
    }
}

/// Where a run stands after `n` actions, when the `i`-th of them measured the loss `vals[i]`.
pub open spec fn run(pace: Pace, vals: Seq<u64>, n: nat) -> Schedule
    decreases n,
{
    if n == 0 {
        start_of(pace)
    } else {
        next(pace, run(pace, vals, (n - 1) as nat), vals[n - 1])
    }
}

/// How many steps of the optimiser have been taken.
pub open spec fn steps_done(s: Schedule) -> nat {
    match s.action {
        Action::Evaluate | Action::Save | Action::Step => s.it as nat,
        _ => (s.it + 1) as nat,
    }
}

/// The action was to measure the losses.
pub open spec fn measures(a: Action) -> bool {
    a is Evaluate || a is EvaluateLast
}

/// What holds wherever a run stands.
pub open spec fn on_course(pace: Pace, s: Schedule) -> bool {
    &&& s.it <= pace.max_iters
    &&& s.action is Evaluate || s.action is Save ==> s.it as nat % pace.eval_interval as nat == 0
    &&& s.action is Save ==> s.it > 0
    &&& s.action is Log ==> s.it as nat % pace.log_interval as nat == 0
    &&& s.action is EvaluateLast || s.action is SaveLast || s.action is Stop ==> s.it == pace.max_iters
}

/// A run evaluates only at multiples of the evaluation interval, saves on the way only there
/// and not at the start, logs only at multiples of the log interval, and comes to its end
/// only after the last iteration.
pub proof fn law_actions_are_due(pace: Pace, vals: Seq<u64>, n: nat)
    requires
        pace.ok(),
    ensures
        on_course(pace, run(pace, vals, n)),
    decreases n,
{
    if n > 0 {
        law_actions_are_due(pace, vals, (n - 1) as nat);
    }
}

/// Steps of the optimiser are the only actions that add to the steps done. Each is taken in
/// the iteration whose number is the number of steps before it, and at the end of the run
/// every iteration from 0 to `max_iters` has had its step.
pub proof fn law_one_step_per_iteration(pace: Pace, vals: Seq<u64>, n: nat)
    requires
        pace.ok(),
    ensures
        steps_done(run(pace, vals, n + 1)) == steps_done(run(pace, vals, n)) + (if run(
            pace,
            vals,
            n,
        ).action is Step {
            1nat
        } else {
            0
        }),
        run(pace, vals, n).action is Step ==> run(pace, vals, n).it == steps_done(
            run(pace, vals, n),
        ),
        steps_done(run(pace, vals, 0)) == 0,
        run(pace, vals, n).action is Stop ==> steps_done(run(pace, vals, n)) == pace.max_iters + 1,
{
    law_actions_are_due(pace, vals, n);
}

/// How many actions may still come.
spec fn ahead(pace: Pace, s: Schedule) -> int {
    match s.action {
        Action::Evaluate => 4 * (pace.max_iters - s.it) + 6,
        Action::Save => 4 * (pace.max_iters - s.it) + 5,
        Action::Step => 4 * (pace.max_iters - s.it) + 4,
        Action::Log => 4 * (pace.max_iters - s.it) + 3,
        Action::EvaluateLast => 2,
        Action::SaveLast => 1,
        Action::Stop => 0,
    }
}

proof fn lemma_ahead(pace: Pace, vals: Seq<u64>, n: nat)
    requires
        pace.ok(),
    ensures
        0 <= ahead(pace, run(pace, vals, n)),
        ahead(pace, run(pace, vals, n)) <= 4 * pace.max_iters + 6 - n || run(
            pace,
            vals,
            n,
        ).action is Stop,
    decreases n,
{
    law_actions_are_due(pace, vals, n);
    if n > 0 {
        lemma_ahead(pace, vals, (n - 1) as nat);
        law_actions_are_due(pace, vals, (n - 1) as nat);
    }
}

/// A run stops: it takes at most four actions in an iteration and two behind the last.
pub proof fn law_run_stops(pace: Pace, vals: Seq<u64>, n: nat)
    requires
        pace.ok(),
        n >= 4 * (pace.max_iters + 1) + 2,
    ensures
        run(pace, vals, n).action is Stop,
{
    lemma_ahead(pace, vals, n);
    law_actions_are_due(pace, vals, n);
}

/// The last things a run does are to evaluate once more and to write a checkpoint.
pub proof fn law_run_ends_with_a_checkpoint(pace: Pace, vals: Seq<u64>, n: nat)
    requires
        pace.ok(),
        !(run(pace, vals, n).action is Stop),
        run(pace, vals, n + 1).action is Stop,
    ensures
        run(pace, vals, n).action is SaveLast,
        n >= 1,
        run(pace, vals, (n - 1) as nat).action is EvaluateLast,
{
}

/// A checkpoint on the way is written exactly after an evaluation, behind the first
/// iteration, whose loss has improved or where every one counts.
pub proof fn law_checkpoints_follow_progress(pace: Pace, vals: Seq<u64>, n: nat)
    requires
        pace.ok(),
    ensures
        run(pace, vals, n + 1).action is Save <==> run(pace, vals, n).action is Evaluate && run(
            pace,
            vals,
            n,
        ).it > 0 && counts(pace, run(pace, vals, n).best, vals[n as int]),
{
}

/// Where checkpoints follow improvement only, the best loss is never above a loss that was
/// measured.
pub proof fn law_best_is_least(pace: Pace, vals: Seq<u64>, n: nat, i: nat)
    requires
        pace.ok(),
        !pace.always_save,
        i < n,
        measures(run(pace, vals, i).action),
    ensures
        !ieee::double_less(vals[i as int], run(pace, vals, n).best),
    decreases n,
{
    let m = (n - 1) as nat;
    lemma_best_is_number(pace, vals, m);
    if i < m {
        law_best_is_least(pace, vals, m, i);
    }
}

/// The best loss is that of the start or one that was measured.
pub proof fn law_best_was_measured(pace: Pace, vals: Seq<u64>, n: nat)
    requires
        pace.ok(),
    ensures
        run(pace, vals, n).best == NO_LOSS || exists|i: nat|
            i < n && measures(#[trigger] run(pace, vals, i).action) && vals[i as int] == run(
                pace,
                vals,
                n,
            ).best,
    decreases n,
{
    if n > 0 {
        let m = (n - 1) as nat;
        law_best_was_measured(pace, vals, m);
        let before = run(pace, vals, m);
        let after = run(pace, vals, n);
        if after.best != before.best {
            assert(measures(run(pace, vals, m).action) && vals[m as int] == after.best);
        } else if before.best != NO_LOSS {
            let i = choose|i: nat|
                i < m && measures(#[trigger] run(pace, vals, i).action) && vals[i as int]
                    == before.best;
            assert(measures(run(pace, vals, i).action) && vals[i as int] == after.best);
        }
    }
}

proof fn lemma_best_is_number(pace: Pace, vals: Seq<u64>, n: nat)
    requires
        pace.ok(),
        !pace.always_save,
    ensures
        !ieee::double_nan(run(pace, vals, n).best),
    decreases n,
{
    if n > 0 {
        lemma_best_is_number(pace, vals, (n - 1) as nat);
    }
}

/// What is due is done: an iteration starts with an evaluation exactly at the multiples of the
/// evaluation interval, and else with its step; behind its step it is logged exactly at the
/// multiples of the log interval.
pub proof fn law_due_actions_are_taken(pace: Pace, vals: Seq<u64>, n: nat)
    requires
        pace.ok(),
    ensures
        n == 0 || run(pace, vals, n).it != run(pace, vals, (n - 1) as nat).it ==> {
            &&& run(pace, vals, n).action is Evaluate <==> run(pace, vals, n).it as nat
                % pace.eval_interval as nat == 0
            &&& run(pace, vals, n).action is Step <==> run(pace, vals, n).it as nat
                % pace.eval_interval as nat != 0
        },
        n == 0 ==> run(pace, vals, n).it == 0,
        run(pace, vals, n).action is Step ==> (run(pace, vals, n + 1).action is Log <==> run(
            pace,
            vals,
            n,
        ).it as nat % pace.log_interval as nat == 0),
        run(pace, vals, n).it <= run(pace, vals, n + 1).it <= run(pace, vals, n).it + 1,
{
    law_actions_are_due(pace, vals, n);
    if n > 0 {
        law_actions_are_due(pace, vals, (n - 1) as nat);
    }
}

/// An evaluation on the way counts where its loss is below the best so far, or where every one
/// counts: then its loss is the best, and it is saved, unless it is the very first. Else the
/// best stays, and the step follows. The last evaluation leaves the best at no more than it
/// was and no more than its loss.
pub proof fn law_evaluations_that_count(pace: Pace, vals: Seq<u64>, n: nat)
    requires
        pace.ok(),
    ensures
        ({
            let a = run(pace, vals, n);
            let b = run(pace, vals, n + 1);
            let loss = vals[n as int];
            let better = ieee::double_less(loss, a.best);
            &&& a.action is Evaluate && (better || pace.always_save) ==> b.best == loss
                && b.action == if a.it > 0 {
                Action::Save
            } else {
                Action::Step
            }
            &&& a.action is Evaluate && !better && !pace.always_save ==> b.best == a.best
                && b.action is Step
            &&& a.action is EvaluateLast ==> !ieee::double_less(loss, b.best)
                && !ieee::double_less(a.best, b.best)
            &&& !measures(a.action) ==> b.best == a.best
        }),
{
}

} // verus!
