//! The poll contract and the completion state shared by a task and its handles.
use vstd::prelude::*;

use crate::executor::Context;
use crate::Cancelled;

verus! {

/// What one poll of a computation reports.
pub enum PollState<T> {
    Ready(T),
    Pending,
}

/// A computation that an executor drives by polling it.
///
/// `K` is the task type of the executor, `T` the output of its tasks and `O`
/// the output of this computation. Once `poll` has reported `Ready`, it must
/// not be called again on the same value. The context lets a computation
/// spawn further tasks and poll or cancel handles.
///
/// A poll reaches the context only through its public operations: each
/// spawn appends one fresh cell and its task, nothing is dropped, so the
/// tasks waiting to be queued afterwards are those from before followed by
/// the new cells' ids in order; and none of them stores an output, so a
/// cell whose task has produced its output stays marked so.
pub trait Pollable<K, T, O> {
    fn poll(&mut self, cx: &mut Context<K, T>) -> (r: PollState<O>)
        ensures
            final(cx).incoming_ids() == old(cx).incoming_ids() + ids_range(
                old(cx).cells().len(),
                final(cx).cells().len(),
            ),
            keeps_produced(old(cx).cells(), final(cx).cells()),
    ;
}

/// Whether `after` has at least the cells of `before`, and every cell of
/// `before` whose task produced its output is still marked so.
pub open spec fn keeps_produced<T>(before: Seq<CompletionCell<T>>, after: Seq<CompletionCell<T>>) -> bool {
    &&& before.len() <= after.len()
    &&& forall|j: int| 0 <= j < before.len() && #[trigger] before[j].produced@ ==> after[j].produced@
}

/// The ids `a`, `a + 1`, ..., `b - 1`.
pub open spec fn ids_range(a: nat, b: nat) -> Seq<usize> {
    Seq::new((b - a) as nat, |i: int| (a + i) as usize)
}

/// The completion state of one spawned task: its output once produced,
/// whether a poller is waiting to be woken, and whether it was cancelled.
/// The ghost flag `produced` records that the task has stored its output,
/// which stays true after a poll takes the output.
///
/// The driving waker of the executor is a no-op, so a registered waker is
/// recorded as the flag `waiting`; it is consumed when a wake is delivered.
pub struct CompletionCell<T> {
    pub output: Option<T>,
    pub waiting: bool,
    pub cancelled: bool,
    pub produced: Ghost<bool>,
}

impl<T> CompletionCell<T> {
    /// The state of a cell that nothing has written yet.
    pub open spec fn empty() -> Self {
        CompletionCell { output: None, waiting: false, cancelled: false, produced: Ghost(false) }
    }

    /// What a poll reports: cancellation first, then the output.
    pub open spec fn poll_result(self) -> PollState<Result<T, Cancelled>> {
        if self.cancelled {
            PollState::Ready(Err(Cancelled))
        } else if self.output is Some {
            PollState::Ready(Ok(self.output->0))
        } else {
            PollState::Pending
        }
    }

    /// The state after a poll: an output is taken, else a waker registered.
    pub open spec fn after_poll(self) -> Self {
        if self.cancelled {
            self
        } else if self.output is Some {
            CompletionCell { output: None, ..self }
        } else {
            CompletionCell { waiting: true, ..self }
        }
    }

    /// The state after the task stored `v`; a registered waker is consumed.
    pub open spec fn after_set(self, v: T) -> Self {
        CompletionCell { output: Some(v), waiting: false, produced: Ghost(true), ..self }
    }

    /// The state after a cancellation; a registered waker is consumed.
    pub open spec fn after_cancel(self) -> Self {
        CompletionCell { cancelled: true, waiting: false, ..self }
    }

    pub fn new() -> (r: Self)
        ensures
            r == Self::empty(),
    {
        CompletionCell { output: None, waiting: false, cancelled: false, produced: Ghost(false) }
    }

    /// Reports cancellation, or takes the output, or registers a waker.
    pub fn poll(&mut self) -> (r: PollState<Result<T, Cancelled>>)
        ensures
            r == old(self).poll_result(),
            *final(self) == old(self).after_poll(),
    {
        if self.cancelled {
            return PollState::Ready(Err(Cancelled));
        }
        match self.output.take() {
            Some(v) => PollState::Ready(Ok(v)),
            None => {
                self.waiting = true;
                PollState::Pending
            },
        }
    }

    /// Stores the output; returns whether a registered waker was woken.
    pub fn set_output(&mut self, v: T) -> (woke: bool)
        ensures
            *final(self) == old(self).after_set(v),
            woke == old(self).waiting,
    {
        self.output = Some(v);
        self.produced = Ghost(true);
        let woke = self.waiting;
        self.waiting = false;
        woke
    }

    /// Marks the cell cancelled; returns whether a registered waker was woken.
    pub fn cancel(&mut self) -> (woke: bool)
        ensures
            *final(self) == old(self).after_cancel(),
            woke == old(self).waiting,
    {
        self.cancelled = true;
        let woke = self.waiting;
        self.waiting = false;
        woke
    }
}

/// Once a cell is cancelled, an output stored later is never delivered: the
/// poll reports the cancellation.
pub proof fn lemma_cancel_overrides_output<T>(c: CompletionCell<T>, v: T)
    ensures
        c.after_cancel().after_set(v).poll_result() == PollState::<Result<T, Cancelled>>::Ready(
            Err(Cancelled),
        ),
        c.after_set(v).after_cancel().poll_result() == PollState::<Result<T, Cancelled>>::Ready(
            Err(Cancelled),
        ),
        c.after_cancel().after_set(v).after_poll().poll_result()
            == PollState::<Result<T, Cancelled>>::Ready(Err(Cancelled)),
{
}

/// A stored output is delivered by exactly one poll; a second poll waits.
pub proof fn lemma_output_delivered_once<T>(c: CompletionCell<T>, v: T)
    requires
        !c.cancelled,
    ensures
        c.after_set(v).poll_result() == PollState::<Result<T, Cancelled>>::Ready(Ok(v)),
        c.after_set(v).after_poll().poll_result() == PollState::<Result<T, Cancelled>>::Pending,
{
}

} // verus!
