//! Timers: a computation that becomes ready once a duration has elapsed.
use vstd::prelude::*;

use std::time::{Duration, Instant};

use crate::executor::{lemma_ids_range_empty, Context};
use crate::task::ids_range;
use crate::task::{PollState, Pollable};

verus! {

#[verifier::external_type_specification]
#[verifier::external_body]
pub struct ExInstant(std::time::Instant);

/// Relies on std's `Instant::now`: a reading of the monotonic clock.
#[verifier::external_body]
fn now() -> Instant {
    Instant::now()
}

/// Relies on std's `Instant::elapsed`: the time passed since `start`.
#[verifier::external_body]
fn elapsed(start: &Instant) -> Duration {
    start.elapsed()
}

/// Relies on std's `Duration::as_millis`: the whole milliseconds in `d`.
#[verifier::external_body]
fn whole_millis(d: &Duration) -> u128 {
    d.as_millis()
}

/// A computation that completes no earlier than a requested number of
/// milliseconds after it was created.
pub struct DelayFuture {
    start: Instant,
    duration_ms: u64,
}

/// Whether a timer of `duration_ms` milliseconds has fired once
/// `elapsed_ms` whole milliseconds have passed since it started.
pub fn timer_ready(elapsed_ms: u128, duration_ms: u64) -> (r: bool)
    ensures
        r == (elapsed_ms >= duration_ms as u128),
{
    elapsed_ms >= duration_ms as u128
}

impl DelayFuture {
    /// The requested duration, in milliseconds.
    pub closed spec fn duration_ms(&self) -> u64 {
        self.duration_ms
    }

    /// Starts a timer of `duration_ms` milliseconds, measured from now.
    pub fn new(duration_ms: u64) -> (r: Self)
        ensures
            r.duration_ms() == duration_ms,
    {
        DelayFuture { start: now(), duration_ms }
    }

    /// The poll outcome once `elapsed_ms` whole milliseconds have passed
    /// since the timer started: ready exactly when the duration has elapsed.
    pub fn poll_elapsed(&self, elapsed_ms: u128) -> (r: PollState<()>)
        ensures
            r is Ready <==> elapsed_ms >= self.duration_ms() as u128,
    {
        if timer_ready(elapsed_ms, self.duration_ms) {
            PollState::Ready(())
        } else {
            PollState::Pending
        }
    }

    /// Reads the clock and reports whether the duration has elapsed.
    pub fn poll_now(&self) -> (r: PollState<()>)
        ensures
            self.duration_ms() == 0 ==> r is Ready,
    {
        let d = elapsed(&self.start);
        self.poll_elapsed(whole_millis(&d))
    }
}

impl<K, T> Pollable<K, T, ()> for DelayFuture {
    fn poll(&mut self, cx: &mut Context<K, T>) -> PollState<()> {
        proof {
            lemma_ids_range_empty(cx.cells().len());
            assert(cx.incoming_ids() =~= cx.incoming_ids() + ids_range(
                cx.cells().len(),
                cx.cells().len(),
            ));
        }
        self.poll_now()
    }
}

/// Creates a timer that completes after `ms` milliseconds.
pub fn delay(ms: u64) -> (r: DelayFuture)
    ensures
        r.duration_ms() == ms,
{
    DelayFuture::new(ms)
}

} // verus!
