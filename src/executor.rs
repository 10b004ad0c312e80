//! The executor: a queue of tasks driven by a busy-polling scheduling loop.
use vstd::prelude::*;

use std::collections::VecDeque;
use std::marker::PhantomData;

use crate::task::{ids_range, keeps_produced, CompletionCell, PollState, Pollable};
use crate::Cancelled;

verus! {

/// A queued task together with the index of its completion cell.
struct Entry<K> {
    id: usize,
    task: K,
}

/// The ids of a sequence of entries, in order.
spec fn ids_of<K>(s: Seq<Entry<K>>) -> Seq<usize> {
    s.map_values(|e: Entry<K>| e.id)
}

/// The state that tasks share while they are polled: the completion cell of
/// every task spawned so far, and the tasks spawned since the last pass.
pub struct Context<K, T> {
    cells: Vec<CompletionCell<T>>,
    incoming: VecDeque<Entry<K>>,
}

impl<K, T> Context<K, T> {
    /// The completion cells, indexed by task id.
    pub closed spec fn cells(&self) -> Seq<CompletionCell<T>> {
        self.cells@
    }

    /// The ids of the tasks spawned since the last pass, in spawn order.
    pub closed spec fn incoming_ids(&self) -> Seq<usize> {
        ids_of(self.incoming@)
    }

    fn new() -> (r: Self)
        ensures
            r.cells() == Seq::<CompletionCell<T>>::empty(),
            r.incoming_ids() == Seq::<usize>::empty(),
    {
        let r = Context { cells: Vec::new(), incoming: VecDeque::new() };
        assert(r.incoming_ids() =~= Seq::<usize>::empty());
        r
    }

    /// Creates a fresh completion cell for `task`, queues the task for the
    /// next pass and returns a handle on the cell. Never polls the task.
    pub fn spawn(&mut self, task: K) -> (h: JoinHandle<T>)
        ensures
            h.id() == old(self).cells().len(),
            final(self).cells() == old(self).cells().push(CompletionCell::empty()),
            final(self).incoming_ids() == old(self).incoming_ids().push(h.id()),
    {
        let id = self.cells.len();
        self.cells.push(CompletionCell::new());
        let ghost before = self.incoming@;
        self.incoming.push_back(Entry { id, task });
        assert(ids_of(self.incoming@) =~= ids_of(before).push(id));
        JoinHandle::new(id)
    }
}

/// A handle on the completion cell of one spawned task. Clones share the
/// cell; dropping a handle leaves the task running.
pub struct JoinHandle<T> {
    id: usize,
    marker: PhantomData<T>,
}

impl<T> Clone for JoinHandle<T> {
    fn clone(&self) -> (r: Self)
        ensures
            r.id() == self.id(),
    {
        JoinHandle { id: self.id, marker: PhantomData }
    }
}

impl<T> JoinHandle<T> {
    /// The id of the task, which indexes its completion cell.
    pub closed spec fn id(&self) -> usize {
        self.id
    }

    pub(crate) fn new(id: usize) -> (r: Self)
        ensures
            r.id() == id,
    {
        JoinHandle { id, marker: PhantomData }
    }

    /// Polls the task's cell: the cancellation error if it was cancelled,
    /// else the output if one is stored (taking it), else `Pending` with a
    /// waker registered. A handle whose output was taken waits forever.
    pub fn poll<K>(&self, cx: &mut Context<K, T>) -> (r: PollState<Result<T, Cancelled>>)
        ensures
            final(cx).incoming_ids() == old(cx).incoming_ids(),
            self.id() < old(cx).cells().len() ==> {
                &&& r == old(cx).cells()[self.id() as int].poll_result()
                &&& final(cx).cells() == old(cx).cells().update(
                    self.id() as int,
                    old(cx).cells()[self.id() as int].after_poll(),
                )
            },
            self.id() >= old(cx).cells().len() ==> r is Pending && final(cx).cells() == old(
                cx,
            ).cells(),
    {
        if self.id < cx.cells.len() {
            let mut c = CompletionCell::new();
            cx.cells.set_and_swap(self.id, &mut c);
            let r = c.poll();
            cx.cells.set_and_swap(self.id, &mut c);
            r
        } else {
            PollState::Pending
        }
    }

    /// Stores the task's output in its cell and wakes a registered poller;
    /// returns whether one was woken.
    pub(crate) fn set_output<K>(&self, cx: &mut Context<K, T>, v: T) -> (woke: bool)
        ensures
            final(cx).incoming_ids() == old(cx).incoming_ids(),
            self.id() < old(cx).cells().len() ==> {
                &&& final(cx).cells() == old(cx).cells().update(
                    self.id() as int,
                    old(cx).cells()[self.id() as int].after_set(v),
                )
                &&& woke == old(cx).cells()[self.id() as int].waiting
            },
            self.id() >= old(cx).cells().len() ==> !woke && final(cx).cells() == old(cx).cells(),
    {
        if self.id < cx.cells.len() {
            let mut c = CompletionCell::new();
            cx.cells.set_and_swap(self.id, &mut c);
            let woke = c.set_output(v);
            cx.cells.set_and_swap(self.id, &mut c);
            woke
        } else {
            false
        }
    }

    /// Marks the task cancelled and wakes a registered poller; returns
    /// whether one was woken. The task itself keeps running.
    pub fn cancel<K>(&self, cx: &mut Context<K, T>) -> (woke: bool)
        ensures
            final(cx).incoming_ids() == old(cx).incoming_ids(),
            self.id() < old(cx).cells().len() ==> {
                &&& final(cx).cells() == old(cx).cells().update(
                    self.id() as int,
                    old(cx).cells()[self.id() as int].after_cancel(),
                )
                &&& woke == old(cx).cells()[self.id() as int].waiting
            },
            self.id() >= old(cx).cells().len() ==> !woke && final(cx).cells() == old(cx).cells(),
    {
        if self.id < cx.cells.len() {
            let mut c = CompletionCell::new();
            cx.cells.set_and_swap(self.id, &mut c);
            let woke = c.cancel();
            cx.cells.set_and_swap(self.id, &mut c);
            woke
        } else {
            false
        }
    }
}

impl<K, T> Pollable<K, T, Result<T, Cancelled>> for JoinHandle<T> {
    fn poll(&mut self, cx: &mut Context<K, T>) -> PollState<Result<T, Cancelled>> {
        let r = JoinHandle::poll(&*self, cx);
        proof {
            lemma_ids_range_empty(cx.cells().len());
            assert(cx.incoming_ids() =~= old(cx).incoming_ids() + ids_range(
                old(cx).cells().len(),
                cx.cells().len(),
            ));
        }
        r
    }
}

/// The ids that a pass keeps queued, in order: those whose poll reported
/// `Pending`. Each record of `log` is a polled id and whether it completed.
pub open spec fn retained(log: Seq<(usize, bool)>) -> Seq<usize>
    decreases log.len(),
{
    if log.len() == 0 {
        Seq::empty()
    } else {
        let rest = retained(log.drop_last());
        if log.last().1 {
            rest
        } else {
            rest.push(log.last().0)
        }
    }
}

/// The ids that a pass polled, in order.
pub open spec fn polled(log: Seq<(usize, bool)>) -> Seq<usize> {
    log.map_values(|p: (usize, bool)| p.0)
}

/// The cells after a completed task's value `v` is stored into its own
/// cell; unchanged when the task did not complete or has no cell.
pub open spec fn settled<T>(mid: Seq<CompletionCell<T>>, entry: (usize, bool), v: T) -> Seq<
    CompletionCell<T>,
> {
    if entry.1 && entry.0 < mid.len() {
        mid.update(entry.0 as int, mid[entry.0 as int].after_set(v))
    } else {
        mid
    }
}

/// Step `k` of a pass trace: the task's poll took the cells from `cs[k]`
/// to `ms[k]`, and settling its outcome took them to `cs[k + 1]`.
pub open spec fn pass_step<T>(
    log: Seq<(usize, bool)>,
    cs: Seq<Seq<CompletionCell<T>>>,
    ms: Seq<Seq<CompletionCell<T>>>,
    vs: Seq<T>,
    k: int,
) -> bool {
    &&& keeps_produced(cs[k], ms[k])
    &&& cs[k + 1] == settled(ms[k], log[k], vs[k])
}

/// The cells went from `before` to `after` through the steps of `log`.
pub open spec fn pass_trace<T>(
    log: Seq<(usize, bool)>,
    before: Seq<CompletionCell<T>>,
    after: Seq<CompletionCell<T>>,
    cs: Seq<Seq<CompletionCell<T>>>,
    ms: Seq<Seq<CompletionCell<T>>>,
    vs: Seq<T>,
) -> bool {
    &&& cs.len() == log.len() + 1
    &&& ms.len() == log.len()
    &&& vs.len() == log.len()
    &&& cs[0] == before
    &&& cs[log.len() as int] == after
    &&& forall|k: int| 0 <= k < log.len() ==> #[trigger] pass_step(log, cs, ms, vs, k)
}

/// Step `k` of a chain of rounds. The first pass polls the queue `q0`,
/// then the waiting tasks `i0`, then those that the root spawned, whose
/// ids run from `l0` up to `marks[0]`; each later pass polls what the
/// previous one left queued, then exactly the tasks spawned since the
/// previous pass began, whose ids run from `marks[k - 1]` up to `marks[k]`.
pub open spec fn chain_step(
    q0: Seq<usize>,
    i0: Seq<usize>,
    l0: nat,
    logs: Seq<Seq<(usize, bool)>>,
    marks: Seq<nat>,
    k: int,
) -> bool {
    &&& marks[k] <= usize::MAX
    &&& if k == 0 {
        l0 <= marks[0] && polled(logs[0]) == q0 + i0 + ids_range(l0, marks[0])
    } else {
        marks[k - 1] <= marks[k] && polled(logs[k]) == retained(logs[k - 1]) + ids_range(
            marks[k - 1],
            marks[k],
        )
    }
}

/// The passes of `logs` form a chain of rounds starting from the queue `q0`,
/// the waiting tasks `i0` and `l0` cells.
pub open spec fn chained(
    q0: Seq<usize>,
    i0: Seq<usize>,
    l0: nat,
    logs: Seq<Seq<(usize, bool)>>,
    marks: Seq<nat>,
) -> bool {
    &&& logs.len() == marks.len()
    &&& forall|k: int| 0 <= k < logs.len() ==> #[trigger] chain_step(q0, i0, l0, logs, marks, k)
}

/// Whether the ids of `s` are distinct and all below `n`.
pub open spec fn distinct_below(s: Seq<usize>, n: nat) -> bool {
    &&& s.no_duplicates()
    &&& forall|i: int| 0 <= i < s.len() ==> s[i] < n
}

/// Distinct ids below `lo`, followed by the ids from `lo` to `hi`, are
/// distinct and below `hi`.
pub proof fn lemma_distinct_then_range(front: Seq<usize>, lo: nat, hi: nat)
    requires
        distinct_below(front, lo),
        lo <= hi <= usize::MAX,
    ensures
        distinct_below(front + ids_range(lo, hi), hi),
{
    let back = ids_range(lo, hi);
    let s = front + back;
    assert forall|a: int, b: int| 0 <= a < s.len() && 0 <= b < s.len() && a != b implies s[a]
        != s[b] by {
        if a < front.len() && b >= front.len() {
            assert(s[a] == front[a] && s[b] == back[b - front.len()]);
        } else if b < front.len() && a >= front.len() {
            assert(s[b] == front[b] && s[a] == back[a - front.len()]);
        } else if a < front.len() {
            assert(s[a] == front[a] && s[b] == front[b]);
        } else {
            assert(s[a] == back[a - front.len()] && s[b] == back[b - front.len()]);
        }
    }
    assert forall|i: int| 0 <= i < s.len() implies s[i] < hi by {
        if i < front.len() {
            assert(s[i] == front[i]);
        } else {
            assert(s[i] == back[i - front.len()]);
        }
    }
}

/// A root's poll, which only appends fresh tasks with fresh cells, keeps an
/// executor well formed.
proof fn lemma_root_poll_keeps_well_formed<K: Pollable<K, T, T>, T>(
    before: Executor<K, T>,
    after: Executor<K, T>,
)
    requires
        after.queue_ids() == before.queue_ids(),
        before.context().cells().len() <= after.context().cells().len() <= usize::MAX,
        after.context().incoming_ids() == before.context().incoming_ids() + ids_range(
            before.context().cells().len(),
            after.context().cells().len(),
        ),
    ensures
        before.well_formed() ==> after.well_formed(),
{
    if before.well_formed() {
        let s = before.queue_ids() + before.context().incoming_ids();
        lemma_distinct_then_range(s, before.context().cells().len(), after.context().cells().len());
        assert(after.queue_ids() + after.context().incoming_ids() =~= s + ids_range(
            before.context().cells().len(),
            after.context().cells().len(),
        ));
    }
}

/// What a pass keeps queued was polled in it; if the polled ids are
/// distinct, so are the kept ones, and a task that completed is not kept.
pub proof fn lemma_retained(log: Seq<(usize, bool)>)
    ensures
        forall|x: usize| retained(log).contains(x) ==> polled(log).contains(x),
        polled(log).no_duplicates() ==> retained(log).no_duplicates(),
        polled(log).no_duplicates() ==> forall|j: int|
            0 <= j < log.len() && (#[trigger] log[j]).1 ==> !retained(log).contains(log[j].0),
    decreases log.len(),
{
    broadcast use vstd::seq_lib::group_seq_properties;

    if log.len() > 0 {
        let init = log.drop_last();
        lemma_retained(init);
        assert(polled(log) =~= polled(init).push(log.last().0));
        if polled(log).no_duplicates() {
            assert(polled(init).no_duplicates()) by {
                assert forall|a: int, b: int|
                    0 <= a < polled(init).len() && 0 <= b < polled(init).len() && a != b implies polled(
                    init,
                )[a] != polled(init)[b] by {
                    assert(polled(init)[a] == polled(log)[a] && polled(init)[b] == polled(log)[b]);
                }
            }
            assert(!polled(init).contains(log.last().0)) by {
                if polled(init).contains(log.last().0) {
                    let a = choose|a: int| 0 <= a < polled(init).len() && polled(init)[a] == log.last().0;
                    assert(polled(log)[a] == polled(log)[log.len() - 1]);
                }
            }
            assert forall|j: int| 0 <= j < log.len() && (#[trigger] log[j]).1 implies !retained(
                log,
            ).contains(log[j].0) by {
                if j < init.len() {
                    assert(init[j] == log[j]);
                    if !log.last().1 {
                        assert(log[j].0 != log.last().0) by {
                            assert(polled(log)[j] == log[j].0);
                            assert(polled(log)[log.len() - 1] == log.last().0);
                        }
                    }
                }
            }
        }
    }
}

/// The marks of a chain of rounds never decrease.
proof fn lemma_marks_grow(
    q0: Seq<usize>,
    i0: Seq<usize>,
    l0: nat,
    logs: Seq<Seq<(usize, bool)>>,
    marks: Seq<nat>,
    a: int,
    b: int,
)
    requires
        chained(q0, i0, l0, logs, marks),
        0 <= a <= b < logs.len(),
    ensures
        marks[a] <= marks[b],
    decreases b - a,
{
    if a < b {
        lemma_marks_grow(q0, i0, l0, logs, marks, a, b - 1);
        assert(chain_step(q0, i0, l0, logs, marks, b));
    }
}

/// In a chain of rounds that starts from distinct ids below the cell
/// count, every pass polls distinct ids, all below its mark.
proof fn lemma_pass_ids(
    q0: Seq<usize>,
    i0: Seq<usize>,
    l0: nat,
    logs: Seq<Seq<(usize, bool)>>,
    marks: Seq<nat>,
    k: int,
)
    requires
        chained(q0, i0, l0, logs, marks),
        distinct_below(q0 + i0, l0),
        0 <= k < logs.len(),
    ensures
        polled(logs[k]).no_duplicates(),
        forall|i: int| 0 <= i < polled(logs[k]).len() ==> polled(logs[k])[i] < marks[k],
    decreases k,
{
    broadcast use vstd::seq_lib::group_seq_properties;

    assert(chain_step(q0, i0, l0, logs, marks, k));
    let (front, lo) = if k == 0 {
        (q0 + i0, l0)
    } else {
        (retained(logs[k - 1]), marks[k - 1])
    };
    if k > 0 {
        lemma_pass_ids(q0, i0, l0, logs, marks, k - 1);
        lemma_retained(logs[k - 1]);
        assert forall|i: int| 0 <= i < front.len() implies front[i] < lo by {
            assert(front.contains(front[i]));
            assert(polled(logs[k - 1]).contains(front[i]));
        }
        assert(front.no_duplicates());
    } else {
        assert(polled(logs[0]) == q0 + i0 + ids_range(l0, marks[0]));
    }
    let back = ids_range(lo, marks[k]);
    let s = polled(logs[k]);
    assert(s == front + back);
    assert forall|a: int, b: int| 0 <= a < s.len() && 0 <= b < s.len() && a != b implies s[a]
        != s[b] by {
        if a < front.len() && b >= front.len() {
            assert(s[a] == front[a] && s[a] < lo && s[b] == back[b - front.len()]);
        } else if b < front.len() && a >= front.len() {
            assert(s[b] == front[b] && s[b] < lo && s[a] == back[a - front.len()]);
        } else if a < front.len() {
            assert(s[a] == front[a] && s[b] == front[b]);
            assert(front.no_duplicates());
        } else {
            assert(s[a] == back[a - front.len()] && s[b] == back[b - front.len()]);
        }
    }
    assert forall|i: int| 0 <= i < s.len() implies s[i] < marks[k] by {
        if i < front.len() {
            assert(s[i] == front[i]);
        } else {
            assert(s[i] == back[i - front.len()]);
        }
    }
}

/// A task reports completion once: in a chain of rounds that starts from
/// distinct ids below the cell count (a well-formed executor, whose
/// `block_on` states such a chain), a task that completed in a pass is
/// polled by no later pass.
pub proof fn lemma_completed_never_polled_again(
    q0: Seq<usize>,
    i0: Seq<usize>,
    l0: nat,
    logs: Seq<Seq<(usize, bool)>>,
    marks: Seq<nat>,
    k: int,
    j: int,
    k2: int,
)
    requires
        chained(q0, i0, l0, logs, marks),
        distinct_below(q0 + i0, l0),
        0 <= k < k2 < logs.len(),
        0 <= j < logs[k].len(),
        logs[k][j].1,
    ensures
        !polled(logs[k2]).contains(logs[k][j].0),
    decreases k2 - k,
{
    broadcast use vstd::seq_lib::group_seq_properties;

    let id = logs[k][j].0;
    lemma_pass_ids(q0, i0, l0, logs, marks, k);
    assert(polled(logs[k])[j] == id);
    assert(id < marks[k]);
    let prev = logs[k2 - 1];
    if k2 == k + 1 {
        lemma_retained(logs[k]);
    } else {
        lemma_completed_never_polled_again(q0, i0, l0, logs, marks, k, j, k2 - 1);
        lemma_retained(prev);
    }
    assert(!retained(prev).contains(id));
    lemma_marks_grow(q0, i0, l0, logs, marks, k, k2 - 1);
    assert(chain_step(q0, i0, l0, logs, marks, k2));
    let back = ids_range(marks[k2 - 1], marks[k2]);
    assert(polled(logs[k2]) == retained(prev) + back);
    if polled(logs[k2]).contains(id) {
        let i = choose|i: int| 0 <= i < polled(logs[k2]).len() && polled(logs[k2])[i] == id;
        if i < retained(prev).len() {
            assert(retained(prev)[i] == id);
        } else {
            assert(back[i - retained(prev).len()] == id);
        }
    }
}

/// The queue after the passes of `logs`, starting from `queue`.
pub open spec fn queue_after(queue: Seq<usize>, logs: Seq<Seq<(usize, bool)>>) -> Seq<usize> {
    if logs.len() == 0 {
        queue
    } else {
        retained(logs.last())
    }
}

/// The tasks waiting to be queued after the passes of `logs`, once the
/// executor has `len` cells.
pub open spec fn waiting_after(
    i0: Seq<usize>,
    l0: nat,
    marks: Seq<nat>,
    len: nat,
) -> Seq<usize> {
    if marks.len() == 0 {
        i0 + ids_range(l0, len)
    } else {
        ids_range(marks.last(), len)
    }
}

/// One more round extends a chain of rounds.
proof fn lemma_chain_push(
    q0: Seq<usize>,
    i0: Seq<usize>,
    l0: nat,
    logs: Seq<Seq<(usize, bool)>>,
    marks: Seq<nat>,
    log: Seq<(usize, bool)>,
    m: nat,
)
    requires
        chained(q0, i0, l0, logs, marks),
        m <= usize::MAX,
        logs.len() == 0 ==> l0 <= m && polled(log) == q0 + i0 + ids_range(l0, m),
        logs.len() > 0 ==> marks.last() <= m && polled(log) == retained(logs.last()) + ids_range(
            marks.last(),
            m,
        ),
    ensures
        chained(q0, i0, l0, logs.push(log), marks.push(m)),
{
    let nl = logs.push(log);
    let nm = marks.push(m);
    assert forall|k: int| 0 <= k < nl.len() implies #[trigger] chain_step(q0, i0, l0, nl, nm, k) by {
        if k < logs.len() {
            assert(chain_step(q0, i0, l0, logs, marks, k));
            assert(nl[k] == logs[k] && nm[k] == marks[k]);
            if k > 0 {
                assert(nl[k - 1] == logs[k - 1] && nm[k - 1] == marks[k - 1]);
            }
        } else if k > 0 {
            assert(nl[k - 1] == logs.last() && nm[k - 1] == marks.last());
        }
    }
}

/// No id lies between `a` and itself.
pub proof fn lemma_ids_range_empty(a: nat)
    ensures
        ids_range(a, a) == Seq::<usize>::empty(),
{
    assert(ids_range(a, a) =~= Seq::<usize>::empty());
}

/// The ids from `a` to `b` followed by those from `b` to `c` are the ids
/// from `a` to `c`.
pub proof fn lemma_ids_range_split(a: nat, b: nat, c: nat)
    requires
        a <= b <= c,
    ensures
        ids_range(a, b) + ids_range(b, c) == ids_range(a, c),
{
    assert(ids_range(a, b) + ids_range(b, c) =~= ids_range(a, c));
}

/// A single-threaded executor: an ordered queue of tasks of type `K`, each
/// producing a `T` that is routed into the task's completion cell. The kinds
/// of computation that an application spawns are the variants of one `K`.
pub struct Executor<K, T> {
    queue: VecDeque<Entry<K>>,
    cx: Context<K, T>,
}

impl<K: Pollable<K, T, T>, T> Executor<K, T> {
    /// The ids of the queued tasks, in queue order.
    pub closed spec fn queue_ids(&self) -> Seq<usize> {
        ids_of(self.queue@)
    }

    /// The queued and the waiting tasks have distinct ids, each of which
    /// indexes a cell.
    pub open spec fn well_formed(&self) -> bool {
        distinct_below(self.queue_ids() + self.context().incoming_ids(), self.context().cells().len())
    }

    /// The shared state: completion cells and tasks spawned since the last pass.
    pub closed spec fn context(&self) -> Context<K, T> {
        self.cx
    }

    /// Creates an executor with an empty queue.
    pub fn new() -> (r: Self)
        ensures
            r.queue_ids() == Seq::<usize>::empty(),
            r.context().cells() == Seq::<CompletionCell<T>>::empty(),
            r.context().incoming_ids() == Seq::<usize>::empty(),
            r.well_formed(),
    {
        let r = Executor { queue: VecDeque::new(), cx: Context::new() };
        assert(r.queue_ids() =~= Seq::<usize>::empty());
        assert(r.queue_ids() + r.context().incoming_ids() =~= Seq::<usize>::empty());
        r
    }

    /// Queues `task` and returns a handle on its completion cell, without
    /// polling it. The task is polled from the next pass on.
    pub fn spawn(&mut self, task: K) -> (h: JoinHandle<T>)
        ensures
            h.id() == old(self).context().cells().len(),
            final(self).context().cells() == old(self).context().cells().push(
                CompletionCell::empty(),
            ),
            final(self).context().incoming_ids() == old(self).context().incoming_ids().push(h.id()),
            final(self).queue_ids() == old(self).queue_ids(),
            old(self).well_formed() ==> final(self).well_formed(),
    {
        let h = self.cx.spawn(task);
        let count = self.cx.cells.len();
        proof {
            let before = old(self).queue_ids() + old(self).context().incoming_ids();
            let len = old(self).context().cells().len();
            assert(self.queue_ids() + self.context().incoming_ids() =~= before + ids_range(
                len,
                len + 1,
            ));
            if old(self).well_formed() {
                lemma_distinct_then_range(before, len, len + 1);
            }
        }
        h
    }

    /// Marks the task of `h` cancelled; see `JoinHandle::cancel`.
    pub fn cancel(&mut self, h: &JoinHandle<T>) -> (woke: bool)
        ensures
            old(self).well_formed() ==> final(self).well_formed(),
            final(self).queue_ids() == old(self).queue_ids(),
            final(self).context().incoming_ids() == old(self).context().incoming_ids(),
            h.id() < old(self).context().cells().len() ==> {
                &&& final(self).context().cells() == old(self).context().cells().update(
                    h.id() as int,
                    old(self).context().cells()[h.id() as int].after_cancel(),
                )
                &&& woke == old(self).context().cells()[h.id() as int].waiting
            },
            h.id() >= old(self).context().cells().len() ==> !woke && final(self).context().cells()
                == old(self).context().cells(),
    {
        h.cancel(&mut self.cx)
    }

    /// Records the outcome `r` of one poll of the queued task `e`. A task
    /// that completed has its output stored in its own cell, which wakes a
    /// registered poller, and leaves the queue; a pending task goes back to
    /// the end of the queue. Returns whether the task completed.
    fn settle(&mut self, e: Entry<K>, r: PollState<T>) -> (done: bool)
        ensures
            done == r is Ready,
            final(self).cx.incoming_ids() == old(self).cx.incoming_ids(),
            !done ==> final(self).queue@ == old(self).queue@.push(e) && final(self).cx.cells()
                == old(self).cx.cells(),
            done ==> final(self).queue@ == old(self).queue@,
            done && e.id < old(self).cx.cells().len() ==> final(self).cx.cells() == old(
                self,
            ).cx.cells().update(e.id as int, old(self).cx.cells()[e.id as int].after_set(r->0)),
            done && e.id >= old(self).cx.cells().len() ==> final(self).cx.cells() == old(
                self,
            ).cx.cells(),
    {
        match r {
            PollState::Ready(v) => {
                let h: JoinHandle<T> = JoinHandle::new(e.id);
                h.set_output(&mut self.cx, v);
                true
            },
            PollState::Pending => {
                self.queue.push_back(e);
                false
            },
        }
    }

    /// One pass over the queue. The tasks spawned since the last pass join
    /// the back of the queue first; then every task queued at that moment is
    /// polled exactly once, in queue order. A task that completes has its
    /// output stored in its own cell and leaves the queue; the others stay, in
    /// order. Tasks spawned during the pass wait for the next one.
    ///
    /// Returns the log of the pass: each polled id and whether it completed.
    /// The cells go through the states of a trace: before step `k` they are
    /// `cs[k]`; the task's poll turns them into `ms[k]`; and if the task
    /// completed with the value `vs[k]`, that value is stored into its own
    /// cell, giving `cs[k + 1]`.
    pub fn run_pass(&mut self) -> (log: Vec<(usize, bool)>)
        ensures
            polled(log@) == old(self).queue_ids() + old(self).context().incoming_ids(),
            final(self).queue_ids() == retained(log@),
            old(self).context().cells().len() <= final(self).context().cells().len(),
            old(self).well_formed() ==> final(self).well_formed(),
            final(self).context().incoming_ids() == ids_range(
                old(self).context().cells().len(),
                final(self).context().cells().len(),
            ),
            exists|cs: Seq<Seq<CompletionCell<T>>>, ms: Seq<Seq<CompletionCell<T>>>, vs: Seq<T>|
                pass_trace(
                    log@,
                    old(self).context().cells(),
                    final(self).context().cells(),
                    cs,
                    ms,
                    vs,
                ),
    {
        let mut arrived = VecDeque::new();
        std::mem::swap(&mut arrived, &mut self.cx.incoming);
        let ghost snapshot = self.queue@ + arrived@;
        let ghost l0 = self.cx.cells().len();
        self.queue.append(&mut arrived);
        assert(ids_of(snapshot) =~= old(self).queue_ids() + old(self).context().incoming_ids());
        assert(self.cx.incoming_ids() =~= ids_range(l0, l0));
        let n = self.queue.len();
        let mut log: Vec<(usize, bool)> = Vec::new();
        let mut k: usize = 0;
        let ghost mut cs: Seq<Seq<CompletionCell<T>>> = seq![self.cx.cells()];
        let ghost mut ms: Seq<Seq<CompletionCell<T>>> = Seq::empty();
        let ghost mut vs: Seq<T> = Seq::empty();
        while k < n
            invariant
                k <= n,
                n == snapshot.len(),
                self.queue@.len() == (n - k) + retained(log@).len(),
                ids_of(self.queue@) == ids_of(snapshot.subrange(k as int, n as int)) + retained(
                    log@,
                ),
                polled(log@) == ids_of(snapshot.subrange(0, k as int)),
                l0 == old(self).cx.cells().len(),
                l0 <= self.cx.cells().len(),
                self.cx.incoming_ids() == ids_range(l0, self.cx.cells().len()),
                pass_trace(log@, old(self).cx.cells(), self.cx.cells(), cs, ms, vs),
            decreases n - k,
        {
            let ghost q0 = self.queue@;
            let ghost log0 = log@;
            assert(ids_of(q0)[0] == snapshot[k as int].id);
            match self.queue.pop_front() {
                Some(mut e) => {
                    let id = e.id;
                    assert(ids_of(self.queue@) =~= ids_of(q0).subrange(1, q0.len() as int));
                    assert(ids_of(snapshot.subrange(k + 1, n as int)) =~= ids_of(
                        snapshot.subrange(k as int, n as int),
                    ).subrange(1, n - k));
                    assert(ids_of(self.queue@) =~= ids_of(snapshot.subrange(k + 1, n as int))
                        + retained(log0));
                    assert(id == snapshot[k as int].id);
                    let ghost q1 = self.queue@;
                    let ghost c0 = self.cx.cells();
                    let r = e.task.poll(&mut self.cx);
                    let ghost c1 = self.cx.cells();
                    let ghost rv = r;
                    proof {
                        lemma_ids_range_split(l0, c0.len(), c1.len());
                    }
                    let done = self.settle(e, r);
                    log.push((id, done));
                    proof {
                        let v = if rv is Ready {
                            rv->0
                        } else {
                            vstd::pervasive::arbitrary()
                        };
                        let cs0 = cs;
                        let ms0 = ms;
                        let vs0 = vs;
                        cs = cs.push(self.cx.cells());
                        ms = ms.push(c1);
                        vs = vs.push(v);
                        assert(log@.drop_last() =~= log0);
                        assert forall|j: int| 0 <= j < log@.len() implies #[trigger] pass_step(
                            log@,
                            cs,
                            ms,
                            vs,
                            j,
                        ) by {
                            if j < log0.len() {
                                assert(pass_step(log0, cs0, ms0, vs0, j));
                                assert(log@[j] == log0[j]);
                                assert(cs[j] == cs0[j] && cs[j + 1] == cs0[j + 1]);
                            } else {
                                assert(cs[j] == c0);
                            }
                        }
                    }
                    if done {
                        assert(retained(log@) == retained(log0));
                    } else {
                        assert(ids_of(self.queue@) =~= ids_of(q1).push(id));
                        assert(retained(log@) == retained(log0).push(id));
                    }
                    assert(ids_of(self.queue@) =~= ids_of(snapshot.subrange(k + 1, n as int))
                        + retained(log@));
                    assert(polled(log@) =~= polled(log0).push(id));
                    assert(polled(log@) =~= ids_of(snapshot.subrange(0, k + 1)));
                },
                None => {
                    assert(false);
                },
            }
            k = k + 1;
        }
        assert(snapshot.subrange(0, n as int) =~= snapshot);
        assert(ids_of(snapshot.subrange(n as int, n as int)) =~= Seq::<usize>::empty());
        assert(ids_of(self.queue@) =~= retained(log@));
        assert(old(self).context() == old(self).cx);
        assert(pass_trace(log@, old(self).context().cells(), self.context().cells(), cs, ms, vs));
        let count = self.cx.cells.len();
        proof {
            if old(self).well_formed() {
                let kept = retained(log@);
                lemma_retained(log@);
                assert forall|i: int| 0 <= i < kept.len() implies kept[i] < l0 by {
                    assert(kept.contains(kept[i]));
                    let w = choose|w: int| 0 <= w < polled(log@).len() && polled(log@)[w] == kept[i];
                }
                lemma_distinct_then_range(kept, l0, self.cx.cells().len());
            }
        }
        log
    }

    /// Ends a round in which the root's poll reported `p`: a ready root
    /// ends the round with its value, leaving the queue and the context as
    /// they are, with an empty log; a pending root is followed by exactly
    /// one pass, whose log is returned.
    pub fn finish_round<O>(&mut self, p: PollState<O>) -> (r: (Option<O>, Vec<(usize, bool)>))
        ensures
            old(self).well_formed() ==> final(self).well_formed(),
            p is Ready ==> {
                &&& r.0 == Some(p->0)
                &&& r.1@.len() == 0
                &&& final(self).queue_ids() == old(self).queue_ids()
                &&& final(self).context() == old(self).context()
            },
            p is Pending ==> {
                &&& r.0 is None
                &&& polled(r.1@) == old(self).queue_ids() + old(self).context().incoming_ids()
                &&& final(self).queue_ids() == retained(r.1@)
                &&& old(self).context().cells().len() <= final(self).context().cells().len()
                &&& final(self).context().incoming_ids() == ids_range(
                    old(self).context().cells().len(),
                    final(self).context().cells().len(),
                )
                &&& exists|
                    cs: Seq<Seq<CompletionCell<T>>>,
                    ms: Seq<Seq<CompletionCell<T>>>,
                    vs: Seq<T>,
                | pass_trace(
                    r.1@,
                    old(self).context().cells(),
                    final(self).context().cells(),
                    cs,
                    ms,
                    vs,
                )
            },
    {
        match p {
            PollState::Ready(v) => (Some(v), Vec::new()),
            PollState::Pending => (None, self.run_pass()),
        }
    }

    /// One round of the scheduling loop: polls `root` once, then ends the
    /// round as `finish_round` does with the outcome. The root's poll may
    /// spawn tasks: the pass polls them after those spawned before the
    /// round, and afterwards only those spawned during the pass wait.
    pub fn run_round<R: Pollable<K, T, O>, O>(&mut self, root: &mut R) -> (r: (
        Option<O>,
        Vec<(usize, bool)>,
    ))
        ensures
            old(self).well_formed() ==> final(self).well_formed(),
            r.0 is Some ==> {
                &&& final(self).queue_ids() == old(self).queue_ids()
                &&& r.1@.len() == 0
                &&& final(self).context().incoming_ids() == old(self).context().incoming_ids()
                    + ids_range(
                    old(self).context().cells().len(),
                    final(self).context().cells().len(),
                )
            },
            r.0 is None ==> exists|m: nat|
                {
                    &&& old(self).context().cells().len() <= m <= final(self).context().cells().len()
                    &&& polled(r.1@) == old(self).queue_ids() + old(self).context().incoming_ids()
                        + ids_range(old(self).context().cells().len(), m)
                    &&& final(self).queue_ids() == retained(r.1@)
                    &&& final(self).context().incoming_ids() == ids_range(
                        m,
                        final(self).context().cells().len(),
                    )
                },
    {
        let p = root.poll(&mut self.cx);
        let count = self.cx.cells.len();
        let ghost m = self.cx.cells().len();
        proof {
            lemma_root_poll_keeps_well_formed(*old(self), *self);
        }
        let r = self.finish_round(p);
        proof {
            if r.0 is None {
                assert(old(self).context().cells().len() <= m <= self.context().cells().len());
                assert(old(self).queue_ids() + old(self).context().incoming_ids() + ids_range(
                    old(self).context().cells().len(),
                    m,
                ) =~= old(self).queue_ids() + (old(self).context().incoming_ids() + ids_range(
                    old(self).context().cells().len(),
                    m,
                )));
            }
        }
        r
    }

    /// Drives `root` to completion. Each round polls `root` once; if it is
    /// still pending, one pass runs over the queue. Tasks still queued when
    /// `root` completes stay queued, neither cancelled nor polled again.
    /// The driving waker is a no-op, so this busy-polls. Gives up with `None`
    /// after `max_rounds` rounds in which `root` stayed pending. Each round
    /// ends as `finish_round` does with the root's outcome, so a `Some` is
    /// the value the root reported. The passes form a chain: each polls what
    /// the previous one left queued, then exactly the tasks spawned since.
    pub fn block_on<R: Pollable<K, T, O>, O>(&mut self, root: R, max_rounds: u64) -> (r: Option<
        O,
    >)
        ensures
            max_rounds == 0 ==> {
                &&& r is None
                &&& final(self).queue_ids() == old(self).queue_ids()
                &&& final(self).context() == old(self).context()
            },
            exists|logs: Seq<Seq<(usize, bool)>>, marks: Seq<nat>|
                {
                    &&& chained(
                        old(self).queue_ids(),
                        old(self).context().incoming_ids(),
                        old(self).context().cells().len(),
                        logs,
                        marks,
                    )
                    &&& final(self).queue_ids() == queue_after(old(self).queue_ids(), logs)
                    &&& final(self).context().incoming_ids() == waiting_after(
                        old(self).context().incoming_ids(),
                        old(self).context().cells().len(),
                        marks,
                        final(self).context().cells().len(),
                    )
                    &&& r is None ==> logs.len() == max_rounds
                    &&& r is Some ==> logs.len() < max_rounds
                },
    {
        let mut root = root;
        let mut rounds: u64 = 0;
        let ghost q0 = old(self).queue_ids();
        let ghost i0 = old(self).context().incoming_ids();
        let ghost l0 = old(self).context().cells().len();
        let ghost mut logs: Seq<Seq<(usize, bool)>> = Seq::empty();
        let ghost mut marks: Seq<nat> = Seq::empty();
        proof {
            lemma_ids_range_empty(l0);
            assert(i0 + ids_range(l0, l0) =~= i0);
        }
        while rounds < max_rounds
            invariant
                rounds <= max_rounds,
                logs.len() == rounds,
                q0 == old(self).queue_ids(),
                i0 == old(self).context().incoming_ids(),
                l0 == old(self).context().cells().len(),
                chained(q0, i0, l0, logs, marks),
                self.queue_ids() == queue_after(q0, logs),
                logs.len() == 0 ==> l0 <= self.context().cells().len(),
                logs.len() > 0 ==> marks.last() <= self.context().cells().len(),
                self.context().incoming_ids() == waiting_after(i0, l0, marks, self.context().cells().len()),
                logs.len() == 0 ==> self.queue_ids() == old(self).queue_ids() && self.context()
                    == old(self).context(),
                old(self).well_formed() ==> self.well_formed(),
            decreases max_rounds - rounds,
        {
            let ghost q = self.queue_ids();
            let ghost lk = self.context().cells().len();
            let ghost before = *self;
            let p = root.poll(&mut self.cx);
            let count = self.cx.cells.len();
            let ghost m = self.context().cells().len();
            assert(m == count);
            proof {
                lemma_root_poll_keeps_well_formed(before, *self);
            }
            proof {
                if logs.len() > 0 {
                    lemma_ids_range_split(marks.last(), lk, m);
                } else {
                    lemma_ids_range_split(l0, lk, m);
                }
            }
            let (out, log) = self.finish_round(p);
            match out {
                Some(v) => {
                    assert(self.context().incoming_ids() =~= waiting_after(i0, l0, marks, self.context().cells().len()));
                    return Some(v);
                },
                None => {},
            }
            proof {
                if logs.len() == 0 {
                    assert(polled(log@) =~= q0 + i0 + ids_range(l0, m));
                } else {
                    assert(polled(log@) =~= retained(logs.last()) + ids_range(marks.last(), m));
                }
                lemma_chain_push(q0, i0, l0, logs, marks, log@, m);
                logs = logs.push(log@);
                marks = marks.push(m);
                assert(queue_after(q0, logs) == retained(log@));
            }
            rounds = rounds + 1;
        }
        None
    }
}

} // verus!
