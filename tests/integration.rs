use mini_tokio::{delay, Cancelled, Context, DelayFuture, Executor, JoinHandle, PollState, Pollable};
use std::time::{Duration, Instant};

/// The tasks these tests spawn.
enum Job {
    /// Completes at once with its value.
    Const(i64),
    /// Waits for the timer, then completes with its value.
    Delayed(DelayFuture, i64),
    /// Stays pending for the given number of polls, then completes.
    Countdown(u32, i64),
    /// Spawns `Const(21)` on its first poll, then awaits it and doubles it.
    Doubler(Option<JoinHandle<i64>>),
}

impl Pollable<Job, i64, i64> for Job {
    fn poll(&mut self, cx: &mut Context<Job, i64>) -> PollState<i64> {
        match self {
            Job::Const(v) => PollState::Ready(*v),
            Job::Delayed(timer, v) => match Pollable::<Job, i64, ()>::poll(timer, cx) {
                PollState::Ready(()) => PollState::Ready(*v),
                PollState::Pending => PollState::Pending,
            },
            Job::Countdown(n, v) => {
                if *n == 0 {
                    PollState::Ready(*v)
                } else {
                    *n -= 1;
                    PollState::Pending
                }
            }
            Job::Doubler(inner) => {
                if inner.is_none() {
                    *inner = Some(cx.spawn(Job::Const(21)));
                }
                match inner.as_ref().unwrap().poll(cx) {
                    PollState::Ready(r) => PollState::Ready(r.unwrap() * 2),
                    PollState::Pending => PollState::Pending,
                }
            }
        }
    }
}

/// A root computation that awaits two handles in turn and sums their outputs.
struct SumOf {
    first: JoinHandle<i64>,
    second: JoinHandle<i64>,
    a: Option<i64>,
}

impl Pollable<Job, i64, i64> for SumOf {
    fn poll(&mut self, cx: &mut Context<Job, i64>) -> PollState<i64> {
        if self.a.is_none() {
            match self.first.poll(cx) {
                PollState::Ready(r) => self.a = Some(r.unwrap()),
                PollState::Pending => return PollState::Pending,
            }
        }
        match self.second.poll(cx) {
            PollState::Ready(r) => PollState::Ready(self.a.unwrap() + r.unwrap()),
            PollState::Pending => PollState::Pending,
        }
    }
}

fn ready_value<T>(p: PollState<T>) -> Option<T> {
    match p {
        PollState::Ready(v) => Some(v),
        PollState::Pending => None,
    }
}

#[test]
fn completes_simple_future() {
    let mut executor: Executor<Job, i64> = Executor::new();
    let handle = executor.spawn(Job::Const(42));
    let result = executor.block_on(handle, u64::MAX).unwrap();
    assert_eq!(result.unwrap(), 42);
}

#[test]
fn join_two_tasks() {
    let mut executor: Executor<Job, i64> = Executor::new();
    let handle1 = executor.spawn(Job::Const(21));
    let handle2 = executor.spawn(Job::Const(21));

    let result = executor.block_on(SumOf { first: handle1, second: handle2, a: None }, u64::MAX);

    assert_eq!(result, Some(42));
}

#[test]
fn delay_future_sleeps() {
    let mut executor: Executor<Job, i64> = Executor::new();
    let start = Instant::now();

    executor.block_on(delay(50), u64::MAX).unwrap();

    let elapsed = start.elapsed();
    assert!(elapsed >= Duration::from_millis(50));
}

/// A root computation that spawns the outer task on its first poll and
/// then awaits it.
struct Nest {
    outer: Option<JoinHandle<i64>>,
}

impl Pollable<Job, i64, i64> for Nest {
    fn poll(&mut self, cx: &mut Context<Job, i64>) -> PollState<i64> {
        if self.outer.is_none() {
            self.outer = Some(cx.spawn(Job::Doubler(None)));
        }
        match self.outer.as_ref().unwrap().poll(cx) {
            PollState::Ready(r) => PollState::Ready(r.unwrap()),
            PollState::Pending => PollState::Pending,
        }
    }
}

#[test]
fn nested_spawn() {
    let mut executor: Executor<Job, i64> = Executor::new();

    let result = executor.block_on(Nest { outer: None }, u64::MAX);

    assert_eq!(result, Some(42));
}

#[test]
fn run_round_logs_its_pass() {
    let mut executor: Executor<Job, i64> = Executor::new();
    let a = executor.spawn(Job::Countdown(2, 1));
    executor.spawn(Job::Const(2));
    let (out, log) = executor.run_round(&mut a.clone());
    assert!(out.is_none());
    assert_eq!(log, vec![(0, false), (1, true)]);
    let (out, log) = executor.run_round(&mut Job::Const(5));
    assert_eq!(out, Some(5));
    assert!(log.is_empty());
}

#[test]
fn clone_shares_the_cell() {
    let mut executor: Executor<Job, i64> = Executor::new();
    let h = executor.spawn(Job::Const(3));
    let c = h.clone();
    drop(h);
    assert_eq!(executor.block_on(c.clone(), 10), Some(Ok(3)));
    let d = executor.spawn(Job::Const(4));
    executor.cancel(&d.clone());
    assert_eq!(executor.block_on(d, 10), Some(Err(Cancelled)));
}

#[test]
fn cancel_handle() {
    let mut executor: Executor<Job, i64> = Executor::new();
    let handle = executor.spawn(Job::Delayed(delay(100), 42));

    // Drop the handle before the task completes
    drop(handle);

    // Give the task time to complete
    let waited = Instant::now();
    while waited.elapsed() < Duration::from_millis(150) {}

    // The executor should still be running
    let result = executor.block_on(Job::Const(42), u64::MAX);
    assert_eq!(result, Some(42));
}

#[test]
fn dropped_handle_task_still_runs() {
    let mut executor: Executor<Job, i64> = Executor::new();
    let kept = executor.spawn(Job::Countdown(3, 7));
    drop(executor.spawn(Job::Countdown(1, 5)));
    let result = executor.block_on(kept, u64::MAX).unwrap();
    assert_eq!(result, Ok(7));
    let again = executor.block_on(Job::Const(9), u64::MAX);
    assert_eq!(again, Some(9));
}

#[test]
fn cancelled_handle_discards_later_output() {
    let mut executor: Executor<Job, i64> = Executor::new();
    let handle = executor.spawn(Job::Countdown(1, 42));
    assert!(!executor.cancel(&handle));
    // The task keeps running and produces its output.
    assert_eq!(executor.run_pass(), vec![(0, false)]);
    assert_eq!(executor.run_pass(), vec![(0, true)]);
    let result = executor.block_on(handle.clone(), u64::MAX).unwrap();
    assert_eq!(result, Err(Cancelled));
    let result = executor.block_on(handle, u64::MAX).unwrap();
    assert_eq!(result, Err(Cancelled));
}

#[test]
fn pass_does_not_skip_after_removal() {
    let mut executor: Executor<Job, i64> = Executor::new();
    let a = executor.spawn(Job::Countdown(1, 1));
    let b = executor.spawn(Job::Const(2));
    let c = executor.spawn(Job::Countdown(1, 3));
    assert_eq!(executor.run_pass(), vec![(0, false), (1, true), (2, false)]);
    assert_eq!(executor.run_pass(), vec![(0, true), (2, true)]);
    assert_eq!(executor.run_pass(), vec![]);
    assert_eq!(executor.block_on(a, 1), Some(Ok(1)));
    assert_eq!(executor.block_on(b, 1), Some(Ok(2)));
    assert_eq!(executor.block_on(c, 1), Some(Ok(3)));
}

#[test]
fn spawned_during_pass_waits_for_next_pass() {
    let mut executor: Executor<Job, i64> = Executor::new();
    executor.spawn(Job::Doubler(None));
    // The outer task spawns id 1 during the pass; it is not polled yet.
    assert_eq!(executor.run_pass(), vec![(0, false)]);
    assert_eq!(executor.run_pass(), vec![(0, false), (1, true)]);
    assert_eq!(executor.run_pass(), vec![(0, true)]);
}

#[test]
fn block_on_with_no_rounds_gives_up() {
    let mut executor: Executor<Job, i64> = Executor::new();
    assert_eq!(executor.block_on(Job::Const(1), 0), None);
    let h = executor.spawn(Job::Countdown(5, 1));
    assert!(executor.block_on(h, 2).is_none());
}

#[test]
fn second_poll_after_output_waits() {
    let mut executor: Executor<Job, i64> = Executor::new();
    let h = executor.spawn(Job::Const(4));
    assert_eq!(executor.block_on(h.clone(), 10), Some(Ok(4)));
    assert_eq!(executor.block_on(h, 10), None);
}

#[test]
fn handle_poll_in_context() {
    let mut executor: Executor<Job, i64> = Executor::new();
    let h = executor.spawn(Job::Const(8));
    struct Probe(JoinHandle<i64>, u32);
    impl Pollable<Job, i64, (Option<Result<i64, Cancelled>>, u32)> for Probe {
        fn poll(&mut self, cx: &mut Context<Job, i64>) -> PollState<(Option<Result<i64, Cancelled>>, u32)> {
            self.1 += 1;
            let r = ready_value(self.0.poll(cx));
            if r.is_some() || self.1 > 3 {
                PollState::Ready((r, self.1))
            } else {
                PollState::Pending
            }
        }
    }
    // First poll: pending; the pass completes the task; second poll: ready.
    assert_eq!(executor.block_on(Probe(h, 0), 10), Some((Some(Ok(8)), 2)));
}

#[test]
fn cancelled_message() {
    assert_eq!(Cancelled.message(), "Task was cancelled");
}

#[test]
fn delay_poll_elapsed_threshold() {
    let timer = delay(50);
    assert!(ready_value(timer.poll_elapsed(49)).is_none());
    assert_eq!(ready_value(timer.poll_elapsed(50)), Some(()));
    assert_eq!(ready_value(timer.poll_elapsed(51)), Some(()));
    assert!(ready_value(delay(0).poll_now()).is_some());
}

#[test]
fn timer_ready_values() {
    assert!(!mini_tokio::time::timer_ready(0, 1));
    assert!(mini_tokio::time::timer_ready(1, 1));
    assert!(mini_tokio::time::timer_ready(u128::MAX, u64::MAX));
    assert!(!mini_tokio::time::timer_ready(u64::MAX as u128 - 1, u64::MAX));
}

#[test]
fn finish_round_decides_from_root_outcome() {
    let mut executor: Executor<Job, i64> = Executor::new();
    let h = executor.spawn(Job::Const(6));
    let (out, log) = executor.finish_round(PollState::Ready(11));
    assert_eq!(out, Some(11));
    assert!(log.is_empty());
    let (out, log) = executor.finish_round::<i64>(PollState::Pending);
    assert_eq!(out, None);
    assert_eq!(log, vec![(0, true)]);
    assert_eq!(executor.block_on(h, 1), Some(Ok(6)));
}
