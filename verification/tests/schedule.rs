use nanogpt_rs::pool::{jobs, par_for, par_for_work, ParMut};
use nanogpt_rs::schedule::{Action, Pace, Schedule};
use std::cell::Cell;

fn run(pace: Pace, losses: &[f64]) -> (Vec<(usize, Action)>, f64) {
    let mut s = Schedule::start(pace);
    let mut done = vec![];
    let mut left = losses.iter();
    while s.action != Action::Stop {
        done.push((s.it, s.action));
        let measured = matches!(s.action, Action::Evaluate | Action::EvaluateLast);
        let loss = if measured { *left.next().unwrap() } else { -1.0 };
        s.advance(pace, loss.to_bits());
    }
    assert!(left.next().is_none());
    (done, f64::from_bits(s.best))
}

#[test]
fn a_run_from_start_to_end() {
    let pace = Pace { max_iters: 4, eval_interval: 2, log_interval: 3, always_save: false };
    let (done, best) = run(pace, &[4.0, 3.0, 3.5, 2.0]);
    assert_eq!(
        done,
        vec![
            (0, Action::Evaluate),
            (0, Action::Step),
            (0, Action::Log),
            (1, Action::Step),
            (2, Action::Evaluate),
            (2, Action::Save),
            (2, Action::Step),
            (3, Action::Step),
            (3, Action::Log),
            (4, Action::Evaluate),
            (4, Action::Step),
            (4, Action::EvaluateLast),
            (4, Action::SaveLast),
        ]
    );
    assert_eq!(best, 2.0);
}

#[test]
fn every_evaluation_can_be_saved() {
    let pace = Pace { max_iters: 2, eval_interval: 1, log_interval: 100, always_save: true };
    let (done, best) = run(pace, &[1.0, 2.0, 3.0, 9.0]);
    let saves: Vec<usize> = done.iter().filter(|d| d.1 == Action::Save).map(|d| d.0).collect();
    assert_eq!(saves, vec![1, 2]);
    assert_eq!(best, 3.0);
}

#[test]
fn every_iteration_has_one_step() {
    let pace = Pace { max_iters: 25, eval_interval: 7, log_interval: 4, always_save: false };
    let (done, best) = run(pace, &[9.0, 8.0, f64::NAN, 7.5, 7.75]);
    let steps: Vec<usize> = done.iter().filter(|d| d.1 == Action::Step).map(|d| d.0).collect();
    assert_eq!(steps, (0..=25).collect::<Vec<usize>>());
    assert!(done.len() <= 4 * 26 + 2);
    assert_eq!(best, 7.5);
    for (it, a) in done {
        match a {
            Action::Evaluate | Action::Save => assert_eq!(it % 7, 0),
            Action::Log => assert_eq!(it % 4, 0),
            _ => {}
        }
    }
}

#[test]
fn a_run_of_no_more_than_one_iteration() {
    let pace = Pace { max_iters: 0, eval_interval: 5, log_interval: 5, always_save: true };
    let (done, best) = run(pace, &[f64::NAN, 6.0]);
    assert_eq!(done.len(), 5);
    assert_eq!(best, 6.0);
    let (_, best) = run(pace, &[6.0, f64::NAN]);
    assert_eq!(best, 6.0);
    let quiet = Pace { always_save: false, ..pace };
    let (_, best) = run(quiet, &[2e9, 3e9]);
    assert_eq!(best, 1e9);
}

#[test]
fn little_work_is_one_job() {
    assert_eq!(jobs(8, 100, 10), vec![(0, 100)]);
    assert_eq!(jobs(8, 0, usize::MAX), vec![]);
    assert_eq!(jobs(0, 5, usize::MAX), vec![(0, 5)]);
    assert_eq!(jobs(1, 5, usize::MAX), vec![(0, 5)]);
    assert_eq!(jobs(2, 1 << 10, (1 << 10) - 1), vec![(0, 1 << 10)]);
    assert_eq!(jobs(2, 1 << 10, 1 << 10), vec![(0, 512), (512, 1 << 10)]);
}

#[test]
fn jobs_are_even_shares() {
    assert_eq!(jobs(3, 10, usize::MAX), vec![(0, 4), (4, 8), (8, 10)]);
    assert_eq!(jobs(4, 5, usize::MAX), vec![(0, 2), (2, 4), (4, 5)]);
    assert_eq!(jobs(9, 3, usize::MAX), vec![(0, 1), (1, 2), (2, 3)]);
    for threads in 0..9 {
        for n in 0..60 {
            let js = jobs(threads, n, usize::MAX);
            assert!(js.len() <= threads.max(1));
            let all: Vec<usize> = js.iter().flat_map(|j| j.0..j.1).collect();
            assert_eq!(all, (0..n).collect::<Vec<usize>>());
        }
    }
}

#[test]
fn every_item_is_visited_once() {
    let seen: Vec<Cell<usize>> = (0..23).map(|_| Cell::new(0)).collect();
    par_for(4, 23, |i: usize| seen[i].set(seen[i].get() + 1));
    assert!(seen.iter().all(|c| c.get() == 1));
    par_for_work(4, 23, 1, |i: usize| seen[i].set(seen[i].get() + i));
    for (i, c) in seen.iter().enumerate() {
        assert_eq!(c.get(), 1 + i);
    }
}

#[test]
fn a_view_writes_through() {
    let mut v = vec![1u32, 2, 3, 4];
    {
        let mut p = ParMut::new(&mut v);
        assert_eq!(p.len(), 4);
        assert_eq!(p.get(2), 3);
        p.set(0, 9);
        p.slice(1, 3).copy_from_slice(&[7, 8]);
    }
    assert_eq!(v, vec![9, 7, 8, 4]);
}
