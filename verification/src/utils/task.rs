//! Work submitted to gameplay systems, and the results they hand back by task id.
use std::collections::HashMap;
use std::marker::PhantomData;
use vstd::prelude::*;

verus! {

broadcast use vstd::std_specs::hash::group_hash_axioms;

/// Anything that can be submitted as a task, with the type of its result.
pub trait Task {
    type Result;
}

/// Identifies a task of kind `T`. Ids are never zero.
pub struct TaskId<T> {
    id: u32,
    phantom: PhantomData<T>,
}

impl<T> TaskId<T> {
    /// The number behind this id.
    pub closed spec fn value(&self) -> u32 {
        self.id
    }

    /// A copy of this id.
    pub fn duplicate(&self) -> (r: TaskId<T>)
        ensures
            r.value() == self.value(),
    {
        TaskId { id: self.id, phantom: PhantomData }
    }

    /// Whether two ids are the same.
    pub fn same(&self, other: &TaskId<T>) -> (r: bool)
        ensures
            r == (self.value() == other.value()),
    {
        self.id == other.id
    }
}

/// Whether a task is done, with its result.
pub enum TaskStatus<R> {
    Done(R),
    Pending,
}

/// One of the first `n` tasks of `start` has id `k` and keeps its result.
pub open spec fn kept_id<T>(start: Seq<(u32, T, bool)>, n: int, k: u32) -> bool {
    exists|i: int| 0 <= i < n && start[i].0 == k && start[i].2
}

/// The tasks that stay waiting: those whose outcome (at the same position in `outs`)
/// is `Pending`, in their order.
pub open spec fn left_waiting<T, R, S>(tasks: Seq<(u32, T, bool)>, outs: Seq<(TaskStatus<R>, S)>) -> Seq<
    (u32, T, bool),
>
    decreases tasks.len(),
{
    if tasks.len() == 0 {
        Seq::empty()
    } else {
        let rest = left_waiting(tasks.drop_last(), outs);
        if outs[tasks.len() - 1].0 is Pending {
            rest.push(tasks.last())
        } else {
            rest
        }
    }
}

/// The tasks left waiting are tasks with a `Pending` outcome, in order.
pub proof fn lemma_left_waiting<T, R, S>(tasks: Seq<(u32, T, bool)>, outs: Seq<(TaskStatus<R>, S)>)
    ensures
        forall|j: int| 0 <= j < left_waiting(tasks, outs).len() ==> exists|i: int|
            0 <= i < tasks.len() && outs[i].0 is Pending && #[trigger] left_waiting(tasks, outs)[j] == tasks[i],
        (forall|a: int, b: int| 0 <= a < b < tasks.len() ==> tasks[a].0 < tasks[b].0) ==> (forall|a: int, b: int|
            0 <= a < b < left_waiting(tasks, outs).len() ==> left_waiting(tasks, outs)[a].0 < left_waiting(tasks, outs)[b].0),
    decreases tasks.len(),
{
    if tasks.len() > 0 {
        let init = tasks.drop_last();
        lemma_left_waiting(init, outs);
        let rest = left_waiting(init, outs);
        let lw = left_waiting(tasks, outs);
        assert forall|j: int| 0 <= j < lw.len() implies exists|i: int|
            0 <= i < tasks.len() && outs[i].0 is Pending && #[trigger] lw[j] == tasks[i] by {
            if j < rest.len() {
                let i = choose|i: int| 0 <= i < init.len() && outs[i].0 is Pending && #[trigger] rest[j] == init[i];
                assert(lw[j] == rest[j]);
                assert(tasks[i] == init[i]);
            } else {
                assert(lw[j] == tasks[tasks.len() - 1]);
            }
        }
        if forall|a: int, b: int| 0 <= a < b < tasks.len() ==> tasks[a].0 < tasks[b].0 {
            assert forall|a: int, b: int| 0 <= a < b < init.len() implies init[a].0 < init[b].0 by {
                assert(init[a] == tasks[a]);
                assert(init[b] == tasks[b]);
            }
            assert forall|a: int, b: int| 0 <= a < b < lw.len() implies lw[a].0 < lw[b].0 by {
                if b < rest.len() {
                    assert(lw[a] == rest[a]);
                    assert(lw[b] == rest[b]);
                } else {
                    assert(lw[a] == rest[a]);
                    let i = choose|i: int| 0 <= i < init.len() && outs[i].0 is Pending && #[trigger] rest[a] == init[i];
                    assert(init[i] == tasks[i]);
                    assert(lw[b] == tasks[tasks.len() - 1]);
                }
            }
        }
    }
}

/// The outcome of trying the first `outs.len()` tasks of `start` with `f`: task `i`
/// got state `ins[i]` (the one held for its id, if any) and gave `outs[i]`; pending
/// tasks keep their new state, done ones lose it and keep their result if asked for;
/// nothing else changes.
pub open spec fn tried<T, S, R, F: Fn(&T, S) -> (TaskStatus<R>, S)>(
    f: F,
    start: Seq<(u32, T, bool)>,
    state_before: Map<u32, S>,
    state_after: Map<u32, S>,
    completed_before: Map<u32, R>,
    completed_after: Map<u32, R>,
    ins: Seq<S>,
    outs: Seq<(TaskStatus<R>, S)>,
) -> bool {
    let n = outs.len();
    &&& n <= start.len()
    &&& ins.len() == n
    &&& forall|i: int| 0 <= i < n ==> (state_before.contains_key(start[i].0) ==> ins[i] == state_before[start[i].0])
        && call_ensures(f, (&start[i].1, ins[i]), #[trigger] outs[i])
    &&& forall|i: int| 0 <= i < n ==> (#[trigger] outs[i].0 is Pending ==> state_after.contains_key(start[i].0)
        && state_after[start[i].0] == outs[i].1)
    &&& forall|i: int| 0 <= i < n ==> (#[trigger] outs[i].0 is Done ==> !state_after.contains_key(start[i].0))
    &&& forall|k: u32| (forall|i: int| 0 <= i < n ==> start[i].0 != k) ==> (#[trigger] state_after.contains_key(k)
        == state_before.contains_key(k) && (state_before.contains_key(k) ==> state_after[k] == state_before[k]))
    &&& forall|i: int| 0 <= i < n ==> (#[trigger] outs[i].0 matches TaskStatus::Done(r) ==> (start[i].2
        ==> completed_after.contains_key(start[i].0) && completed_after[start[i].0] == r))
    &&& forall|k: u32| (forall|i: int| 0 <= i < n ==> !(start[i].0 == k && outs[i].0 is Done && start[i].2))
        ==> (#[trigger] completed_after.contains_key(k) == completed_before.contains_key(k) && (
        completed_before.contains_key(k) ==> completed_after[k] == completed_before[k]))
}

/// Trying one more task extends the outcome.
proof fn lemma_tried_step<T, S, R, F: Fn(&T, S) -> (TaskStatus<R>, S)>(
    f: F,
    start: Seq<(u32, T, bool)>,
    st0: Map<u32, S>,
    st_before: Map<u32, S>,
    st_after: Map<u32, S>,
    c0: Map<u32, R>,
    c_before: Map<u32, R>,
    c_after: Map<u32, R>,
    ins: Seq<S>,
    outs: Seq<(TaskStatus<R>, S)>,
    s_in: S,
    out: (TaskStatus<R>, S),
)
    requires
        tried(f, start, st0, st_before, c0, c_before, ins, outs),
        outs.len() < start.len(),
        forall|a: int, b: int| 0 <= a < b < start.len() ==> start[a].0 < start[b].0,
        st_before.contains_key(start[outs.len() as int].0) ==> s_in == st_before[start[outs.len() as int].0],
        call_ensures(f, (&start[outs.len() as int].1, s_in), out),
        out.0 is Pending ==> st_after == st_before.insert(start[outs.len() as int].0, out.1) && c_after == c_before,
        out.0 is Done ==> st_after == st_before.remove(start[outs.len() as int].0),
        out.0 matches TaskStatus::Done(res) ==> c_after == (if start[outs.len() as int].2 {
            c_before.insert(start[outs.len() as int].0, res)
        } else {
            c_before
        }),
    ensures
        tried(f, start, st0, st_after, c0, c_after, ins.push(s_in), outs.push(out)),
{
    let m = outs.len() as int;
    let id = start[m].0;
    let ins2 = ins.push(s_in);
    let outs2 = outs.push(out);
    assert forall|i: int| 0 <= i < m implies start[i].0 != id by {
        assert(start[i].0 < start[m].0);
    }
    assert(st_before.contains_key(id) == st0.contains_key(id) && (st0.contains_key(id) ==> st_before[id] == st0[id]));
    assert(st0.contains_key(id) ==> s_in == st0[id]);
    assert forall|i: int| 0 <= i < m + 1 && st0.contains_key(start[i].0) implies #[trigger] ins2[i] == st0[start[i].0] by {
        if i < m {
            assert(ins2[i] == ins[i]);
            assert(outs2[i] == outs[i]);
        } else {
            assert(ins2[i] == s_in);
            assert(start[i].0 == id);
        }
    }
    assert forall|i: int| 0 <= i < m + 1 implies call_ensures(f, (&start[i].1, ins2[i]), #[trigger] outs2[i]) by {
        if i < m {
            assert(ins2[i] == ins[i]);
            assert(outs2[i] == outs[i]);
        }
    }
    assert forall|i: int| 0 <= i < m + 1 && #[trigger] outs2[i].0 is Pending implies st_after.contains_key(start[i].0)
        && st_after[start[i].0] == outs2[i].1 by {
        if i < m {
            assert(outs2[i] == outs[i]);
        }
    }
    assert forall|i: int| 0 <= i < m + 1 && #[trigger] outs2[i].0 is Done implies !st_after.contains_key(start[i].0) by {
        if i < m {
            assert(outs2[i] == outs[i]);
        }
    }
    assert forall|k: u32| (forall|i: int| 0 <= i < m + 1 ==> start[i].0 != k) implies (#[trigger] st_after.contains_key(k)
        == st0.contains_key(k) && (st0.contains_key(k) ==> st_after[k] == st0[k])) by {
        assert(start[m].0 != k);
        assert forall|i: int| 0 <= i < m implies start[i].0 != k by {
            assert(0 <= i < m + 1);
        }
    }
    assert forall|i: int| 0 <= i < m + 1 && #[trigger] outs2[i].0 is Done && start[i].2 implies c_after.contains_key(
        start[i].0,
    ) && c_after[start[i].0] == outs2[i].0->Done_0 by {
        if i < m {
            assert(outs2[i] == outs[i]);
        }
    }
    assert forall|k: u32| (forall|i: int| 0 <= i < m + 1 ==> !(start[i].0 == k && outs2[i].0 is Done && start[i].2))
        implies (#[trigger] c_after.contains_key(k) == c0.contains_key(k) && (c0.contains_key(k) ==> c_after[k] == c0[k])) by {
        assert forall|i: int| 0 <= i < m implies !(start[i].0 == k && outs[i].0 is Done && start[i].2) by {
            assert(outs2[i] == outs[i]);
            assert(0 <= i < m + 1);
        }
        assert(!(start[m].0 == k && outs2[m].0 is Done && start[m].2));
    }
}

/// Which tasks stay waiting depends only on the outcomes of those tasks.
pub proof fn lemma_left_waiting_same<T, R, S>(
    tasks: Seq<(u32, T, bool)>,
    a: Seq<(TaskStatus<R>, S)>,
    b: Seq<(TaskStatus<R>, S)>,
)
    requires
        forall|i: int| 0 <= i < tasks.len() ==> a[i] == b[i],
    ensures
        left_waiting(tasks, a) == left_waiting(tasks, b),
    decreases tasks.len(),
{
    if tasks.len() > 0 {
        lemma_left_waiting_same(tasks.drop_last(), a, b);
        assert(a[tasks.len() - 1] == b[tasks.len() - 1]);
    }
}

/// A task waiting to be processed.
pub struct PendingTask<T> {
    id: u32,
    data: T,
    keep_result: bool,
}

/// The tasks of one kind: those waiting, and the results not yet retrieved.
pub struct Tasks<T: Task> {
    pending: Vec<PendingTask<T>>,
    completed: HashMap<u32, T::Result>,
    next_id: u32,
}

impl<T: Task> Tasks<T> {
    /// The waiting tasks in the order they were created: id, data and whether the
    /// result is kept.
    pub closed spec fn pending_view(&self) -> Seq<(u32, T, bool)> {
        Seq::new(self.pending@.len(), |i: int| (self.pending@[i].id, self.pending@[i].data, self.pending@[i].keep_result))
    }

    /// The results not yet retrieved, by task id.
    pub closed spec fn completed_view(&self) -> Map<u32, T::Result> {
        self.completed@
    }

    /// The id the next task will get.
    pub closed spec fn next_view(&self) -> u32 {
        self.next_id
    }

    /// Ids count up from 1: waiting tasks have increasing ids below the next one, and
    /// every result belongs to an earlier task that no longer waits.
    pub open spec fn well_formed(&self) -> bool {
        &&& self.next_view() >= 1
        &&& forall|i: int| 0 <= i < self.pending_view().len() ==> 1 <= #[trigger] self.pending_view()[i].0 < self.next_view()
        &&& forall|i: int, j: int| 0 <= i < j < self.pending_view().len() ==> self.pending_view()[i].0 < self.pending_view()[j].0
        &&& forall|k: u32| #[trigger] self.completed_view().contains_key(k) ==> 1 <= k < self.next_view()
        &&& forall|k: u32, i: int| 0 <= i < self.pending_view().len() && #[trigger] self.completed_view().contains_key(k)
            ==> #[trigger] self.pending_view()[i].0 != k
    }

    /// No tasks yet.
    pub fn new() -> (r: Self)
        ensures
            r.well_formed(),
            r.pending_view() == Seq::<(u32, T, bool)>::empty(),
            r.completed_view() == Map::<u32, T::Result>::empty(),
            r.next_view() == 1,
    {
        let r = Tasks { pending: Vec::new(), completed: HashMap::new(), next_id: 1 };
        assert(r.pending_view() =~= Seq::<(u32, T, bool)>::empty());
        r
    }

    fn push_task(&mut self, task: T, keep_result: bool) -> (r: u32)
        requires
            old(self).well_formed(),
            old(self).next_view() < u32::MAX,
        ensures
            final(self).well_formed(),
            r == old(self).next_view(),
            final(self).next_view() == old(self).next_view() + 1,
            final(self).pending_view() == old(self).pending_view().push((r, task, keep_result)),
            final(self).completed_view() == old(self).completed_view(),
    {
        let id = self.next_id;
        self.next_id = self.next_id + 1;
        let ghost before = old(self).pending_view();
        assert(self.pending_view() == before);
        self.pending.push(PendingTask { id, data: task, keep_result });
        assert(self.pending_view() =~= before.push((id, task, keep_result)));
        proof {
            if before.len() > 0 {
                assert(self.pending_view()[0] == before[0]);
            } else {
                assert(self.pending_view()[0].0 == id);
            }
            assert(self.completed_view() == old(self).completed_view());
            assert forall|k: u32| #[trigger] self.completed_view().contains_key(k) implies 1 <= k < self.next_view() by {
                assert(old(self).completed_view().contains_key(k));
            }
        }
        assert forall|i: int, j: int| 0 <= i < j < self.pending_view().len() implies self.pending_view()[i].0 < self.pending_view()[j].0 by {
            assert(self.pending_view()[i] == before[i]);
            if j < before.len() {
                assert(self.pending_view()[j] == before[j]);
            }
        }
        id
    }

    /// Creates a task whose result is kept; the id retrieves it later. Ids may not run
    /// past `u32::MAX`.
    pub fn create(&mut self, task: T) -> (r: TaskId<T>)
        requires
            old(self).well_formed(),
            old(self).next_view() < u32::MAX,
        ensures
            final(self).well_formed(),
            r.value() == old(self).next_view(),
            final(self).next_view() == old(self).next_view() + 1,
            final(self).pending_view() == old(self).pending_view().push((r.value(), task, true)),
            final(self).completed_view() == old(self).completed_view(),
    {
        let id = self.push_task(task, true);
        TaskId { id, phantom: PhantomData }
    }

    /// Creates a task whose result is dropped.
    pub fn create_ignore(&mut self, task: T)
        requires
            old(self).well_formed(),
            old(self).next_view() < u32::MAX,
        ensures
            final(self).well_formed(),
            final(self).next_view() == old(self).next_view() + 1,
            final(self).pending_view() == old(self).pending_view().push((old(self).next_view(), task, false)),
            final(self).completed_view() == old(self).completed_view(),
    {
        self.push_task(task, false);
    }

    /// Fulfills every waiting task with `f`, in order, keeping the results asked for.
    pub fn process(&mut self, f: impl Fn(T) -> T::Result)
        requires
            old(self).well_formed(),
            forall|i: int| 0 <= i < old(self).pending_view().len() ==> call_requires(f, (#[trigger] old(self).pending_view()[i].1,)),
        ensures
            final(self).well_formed(),
            final(self).pending_view().len() == 0,
            final(self).next_view() == old(self).next_view(),
            forall|i: int| 0 <= i < old(self).pending_view().len() && (#[trigger] old(self).pending_view()[i]).2 ==> {
                let id = old(self).pending_view()[i].0;
                final(self).completed_view().contains_key(id) && call_ensures(f, (old(self).pending_view()[i].1,), final(self).completed_view()[id])
            },
            forall|k: u32| #![trigger final(self).completed_view().contains_key(k)]
                !kept_id(old(self).pending_view(), old(self).pending_view().len() as int, k)
                ==> (final(self).completed_view().contains_key(k) == old(self).completed_view().contains_key(k)
                    && (old(self).completed_view().contains_key(k) ==> final(self).completed_view()[k] == old(self).completed_view()[k])),
    {
        let ghost start = self.pending_view();
        let ghost done = self.completed_view();
        let mut waiting: Vec<PendingTask<T>> = Vec::new();
        std::mem::swap(&mut waiting, &mut self.pending);
        let n = waiting.len();
        let mut taken: usize = 0;
        let mut rest = waiting;
        while rest.len() > 0
            invariant
                self.next_view() == old(self).next_view(),
                self.pending@.len() == 0,
                start == old(self).pending_view(),
                done == old(self).completed_view(),
                taken + rest.len() == n == start.len(),
                forall|j: int| 0 <= j < rest@.len() ==> (rest@[j].id, rest@[j].data, rest@[j].keep_result) == #[trigger] start[taken + j],
                forall|i: int| 0 <= i < start.len() ==> call_requires(f, (#[trigger] start[i].1,)),
                forall|i: int| 0 <= i < start.len() ==> 1 <= #[trigger] start[i].0 < self.next_view(),
                forall|i: int, j: int| 0 <= i < j < start.len() ==> start[i].0 < start[j].0,
                forall|k: u32| #[trigger] done.contains_key(k) ==> 1 <= k < self.next_view(),
                forall|i: int| 0 <= i < taken && (#[trigger] start[i]).2 ==> self.completed@.contains_key(start[i].0)
                    && call_ensures(f, (start[i].1,), self.completed@[start[i].0]),
                forall|k: u32| #![trigger kept_id(start, taken as int, k)]
                    !kept_id(start, taken as int, k)
                    ==> (self.completed@.contains_key(k) == done.contains_key(k)
                        && (done.contains_key(k) ==> self.completed@[k] == done[k])),
                forall|k: u32| #[trigger] self.completed@.contains_key(k) ==> 1 <= k < self.next_view(),
            decreases rest.len(),
        {
            assert((rest@[0].id, rest@[0].data, rest@[0].keep_result) == start[taken + 0]);
            let task = rest.remove(0);
            assert(start[taken as int] == (task.id, task.data, task.keep_result));
            assert(call_requires(f, (start[taken as int].1,)));
            let ghost before = self.completed@;
            let result = f(task.data);
            if task.keep_result {
                self.completed.insert(task.id, result);
                assert forall|i: int| 0 <= i < taken && (#[trigger] start[i]).2 implies self.completed@.contains_key(start[i].0)
                    && call_ensures(f, (start[i].1,), self.completed@[start[i].0]) by {
                    assert(start[i].0 < start[taken as int].0);
                    assert(start[i].0 != task.id);
                }
            }
            assert forall|j: int| 0 <= j < rest@.len() implies (rest@[j].id, rest@[j].data, rest@[j].keep_result) == #[trigger] start[taken + 1 + j] by {
                assert(start[taken + 1 + j] == start[taken + (j + 1)]);
            }
            assert forall|k: u32| #![trigger kept_id(start, taken + 1, k)]
                !kept_id(start, taken + 1, k)
                implies (self.completed@.contains_key(k) == done.contains_key(k)
                    && (done.contains_key(k) ==> self.completed@[k] == done[k])) by {
                if kept_id(start, taken as int, k) {
                    let i = choose|i: int| 0 <= i < taken && start[i].0 == k && start[i].2;
                    assert(0 <= i < taken + 1 && start[i].0 == k && start[i].2);
                }
                assert(before.contains_key(k) == done.contains_key(k) && (done.contains_key(k) ==> before[k] == done[k]));
                if task.keep_result && k == task.id {
                    assert(start[taken as int].0 == k && start[taken as int].2);
                }
            }
            taken = taken + 1;
        }
        assert(self.pending_view() =~= Seq::<(u32, T, bool)>::empty());
        assert forall|k: u32| #[trigger] self.completed_view().contains_key(k) implies 1 <= k < self.next_view() by {
        }

    }

    /// Takes the result of a task, if it was completed and not retrieved yet.
    pub fn result(&mut self, id: TaskId<T>) -> (r: Option<T::Result>)
        requires
            old(self).well_formed(),
        ensures
            final(self).well_formed(),
            final(self).completed_view() == old(self).completed_view().remove(id.value()),
            r == (if old(self).completed_view().contains_key(id.value()) {
                Some(old(self).completed_view()[id.value()])
            } else {
                None
            }),
            final(self).pending_view() == old(self).pending_view(),
            final(self).next_view() == old(self).next_view(),
    {
        let r = self.completed.remove(&id.id);
        assert(self.pending_view() == old(self).pending_view());
        assert forall|k: u32| #[trigger] self.completed_view().contains_key(k) implies 1 <= k < self.next_view() by {
            assert(old(self).completed_view().contains_key(k));
        }
        assert forall|k: u32, i: int| 0 <= i < self.pending_view().len() && #[trigger] self.completed_view().contains_key(k)
            implies #[trigger] self.pending_view()[i].0 != k by {
            assert(old(self).completed_view().contains_key(k));
        }
        r
    }

    /// Tries one task: takes its state (or a default one), runs `f`, and keeps the task
    /// waiting with its new state, or drops both and keeps the result if asked for.
    /// Gives the state `f` got and what it gave back.
    fn try_one<S: Default, F: Fn(&T, S) -> (TaskStatus<T::Result>, S)>(
        &mut self,
        state: &mut HashMap<u32, S>,
        f: &F,
        task: PendingTask<T>,
    ) -> (r: Ghost<(S, (TaskStatus<T::Result>, S))>)
        requires
            forall|t: T, s: S| call_requires(*f, (&t, s)),
        ensures
            old(state)@.contains_key(task.id) ==> r@.0 == old(state)@[task.id],
            call_ensures(*f, (&task.data, r@.0), r@.1),
            final(self).next_view() == old(self).next_view(),
            r@.1.0 is Pending ==> final(state)@ == old(state)@.insert(task.id, r@.1.1)
                && final(self).pending_view() == old(self).pending_view().push((task.id, task.data, task.keep_result))
                && final(self).completed_view() == old(self).completed_view(),
            r@.1.0 is Done ==> final(state)@ == old(state)@.remove(task.id)
                && final(self).pending_view() == old(self).pending_view(),
            r@.1.0 matches TaskStatus::Done(res) ==> final(self).completed_view() == (if task.keep_result {
                old(self).completed_view().insert(task.id, res)
            } else {
                old(self).completed_view()
            }),
    {
        let s_in = match state.remove(&task.id) {
            Some(s) => s,
            None => S::default(),
        };
        let ghost g_in = s_in;
        let (status, s_out) = f(&task.data, s_in);
        let ghost out = (status, s_out);
        let ghost before = self.pending_view();
        match status {
            TaskStatus::Done(result) => {
                if task.keep_result {
                    self.completed.insert(task.id, result);
                }
            },
            TaskStatus::Pending => {
                state.insert(task.id, s_out);
                let ghost t = (task.id, task.data, task.keep_result);
                self.pending.push(task);
                assert(self.pending_view() =~= before.push(t));
            },
        }
        Ghost((g_in, out))
    }

    /// Tries to fulfil each waiting task with `f`, in order. `f` gets the task and its
    /// state (the one `state` holds for the task's id, or a default one), and gives back
    /// whether the task is done, with the state to keep. A task that is done leaves the
    /// waiting tasks and its state is dropped (its result kept if asked for); one that
    /// is still pending stays, with its new state.
    pub fn try_process<S: Default, F: Fn(&T, S) -> (TaskStatus<T::Result>, S)>(
        &mut self,
        state: &mut HashMap<u32, S>,
        f: F,
    )
        requires
            old(self).well_formed(),
            forall|t: T, s: S| call_requires(f, (&t, s)),
        ensures
            final(self).well_formed(),
            final(self).next_view() == old(self).next_view(),
            exists|ins: Seq<S>, outs: Seq<(TaskStatus<T::Result>, S)>| {
                &&& #[trigger] tried(
                    f,
                    old(self).pending_view(),
                    old(state)@,
                    final(state)@,
                    old(self).completed_view(),
                    final(self).completed_view(),
                    ins,
                    outs,
                )
                &&& outs.len() == old(self).pending_view().len()
                &&& final(self).pending_view() == left_waiting(old(self).pending_view(), outs)
            },
    {
        let ghost start = self.pending_view();
        let ghost st0 = state@;
        let ghost done0 = self.completed_view();
        let ghost n = start.len();
        let mut waiting: Vec<PendingTask<T>> = Vec::new();
        std::mem::swap(&mut waiting, &mut self.pending);
        let mut rest = waiting;
        let mut taken: usize = 0;
        let ghost mut ins: Seq<S> = Seq::empty();
        let ghost mut outs: Seq<(TaskStatus<T::Result>, S)> = Seq::empty();
        proof {
            assert(self.pending_view() =~= left_waiting(start.take(0), outs));
        }
        let total: usize = rest.len();
        assert(n == total);
        while rest.len() > 0
            invariant
                n <= usize::MAX,
                self.next_view() == old(self).next_view(),
                self.next_view() >= 1,
                start == old(self).pending_view(),
                st0 == old(state)@,
                done0 == old(self).completed_view(),
                n == start.len(),
                taken + rest.len() == n,
                forall|j: int| 0 <= j < rest@.len() ==> (rest@[j].id, rest@[j].data, rest@[j].keep_result) == #[trigger] start[taken + j],
                forall|t: T, s: S| call_requires(f, (&t, s)),
                forall|i: int| 0 <= i < n ==> 1 <= #[trigger] start[i].0 < self.next_view(),
                forall|i: int, j: int| 0 <= i < j < n ==> start[i].0 < start[j].0,
                forall|k: u32, i: int| 0 <= i < n && #[trigger] done0.contains_key(k) ==> #[trigger] start[i].0 != k,
                forall|k: u32| #[trigger] done0.contains_key(k) ==> 1 <= k < self.next_view(),
                outs.len() == taken,
                tried(f, start, st0, state@, done0, self.completed@, ins, outs),
                self.pending_view() == left_waiting(start.take(taken as int), outs),
                forall|k: u32| #[trigger] self.completed@.contains_key(k) ==> 1 <= k < self.next_view(),
            decreases rest.len(),
        {
            assert((rest@[0].id, rest@[0].data, rest@[0].keep_result) == start[taken + 0]);
            let task = rest.remove(0);
            assert(start[taken as int] == (task.id, task.data, task.keep_result));
            assert forall|j: int| 0 <= j < rest@.len() implies (rest@[j].id, rest@[j].data, rest@[j].keep_result)
                == #[trigger] start[taken + 1 + j] by {
                assert(start[taken + 1 + j] == start[taken + (j + 1)]);
            }
            let ghost state_before = state@;
            let ghost completed_before = self.completed@;
            proof {
                assert forall|i: int| 0 <= i < taken implies start[i].0 != task.id by {
                    assert(start[i].0 < start[taken as int].0);
                }
                assert(state@.contains_key(task.id) == st0.contains_key(task.id));
                assert(1 <= start[taken as int].0 < self.next_view());
            }
            let ghost pending_before = self.pending_view();
            let ghost t = (task.id, task.data, task.keep_result);
            let step = self.try_one(state, &f, task);
            let ghost s_in = step@.0;
            let ghost out = step@.1;
            let ghost outs_before = outs;
            proof {
                assert(t == start[taken as int]);
                lemma_tried_step(f, start, st0, state_before, state@, done0, completed_before, self.completed@, ins, outs, s_in, out);
                ins = ins.push(s_in);
                outs = outs.push(out);
                lemma_left_waiting_same(start.take(taken as int), outs_before, outs);
                assert(start.take(taken + 1).drop_last() =~= start.take(taken as int));
                assert(start.take(taken + 1).last() == start[taken as int]);
                if out.0 is Done {
                    assert(left_waiting(start.take(taken + 1), outs) == left_waiting(start.take(taken as int), outs));
                } else {
                    assert(left_waiting(start.take(taken + 1), outs) == left_waiting(start.take(taken as int), outs).push(t));
                }
            }
            taken = taken + 1;
        }
        assert(start.take(n as int) =~= start);
        assert(tried(f, start, st0, state@, done0, self.completed@, ins, outs));
        assert(tried(f, old(self).pending_view(), old(state)@, state@, old(self).completed_view(), self.completed_view(), ins, outs));
        assert(self.pending_view() == left_waiting(old(self).pending_view(), outs));
        assert(outs.len() == old(self).pending_view().len());
        proof {
            lemma_left_waiting(start, outs);
            let lw = self.pending_view();
            assert forall|i: int| 0 <= i < lw.len() implies 1 <= #[trigger] lw[i].0 < self.next_view() by {
                let j = choose|j: int| 0 <= j < start.len() && outs[j].0 is Pending && #[trigger] lw[i] == start[j];
                assert(1 <= start[j].0 < self.next_view());
            }
            assert forall|k: u32, i: int| 0 <= i < lw.len() && #[trigger] self.completed_view().contains_key(k)
                implies #[trigger] lw[i].0 != k by {
                let j = choose|j: int| 0 <= j < start.len() && outs[j].0 is Pending && #[trigger] lw[i] == start[j];
                if lw[i].0 == k {
                    if exists|i2: int| 0 <= i2 < n && start[i2].0 == k && outs[i2].0 is Done && start[i2].2 {
                        let i2 = choose|i2: int| 0 <= i2 < n && start[i2].0 == k && outs[i2].0 is Done && start[i2].2;
                        if i2 < j {
                            assert(start[i2].0 < start[j].0);
                        } else if i2 > j {
                            assert(start[j].0 < start[i2].0);
                        }
                    } else {
                        assert(done0.contains_key(k));
                        assert(start[j].0 != k);
                    }
                }
            }
        }
    }
}

/// A task made with `create` and then processed gives its result once: the first
/// `result` for its id is what `f` gave for the task, a second one is `None`.
pub proof fn lemma_result_handed_out_once<T: Task, F: Fn(T) -> T::Result>(
    t0: Tasks<T>,
    t1: Tasks<T>,
    t2: Tasks<T>,
    t3: Tasks<T>,
    task: T,
    id: TaskId<T>,
    f: F,
    first: Option<T::Result>,
    second: Option<T::Result>,
)
    requires
        // `create(task)` took `t0` to `t1` and gave `id`
        id.value() == t0.next_view(),
        t1.pending_view() == t0.pending_view().push((id.value(), task, true)),
        // `process(f)` took `t1` to `t2`
        forall|i: int| 0 <= i < t1.pending_view().len() && (#[trigger] t1.pending_view()[i]).2 ==> {
            let k = t1.pending_view()[i].0;
            t2.completed_view().contains_key(k) && call_ensures(f, (t1.pending_view()[i].1,), t2.completed_view()[k])
        },
        // `result(id)` took `t2` to `t3` and gave `first`, then gave `second` on `t3`
        t3.completed_view() == t2.completed_view().remove(id.value()),
        first == (if t2.completed_view().contains_key(id.value()) {
            Some(t2.completed_view()[id.value()])
        } else {
            None
        }),
        second == (if t3.completed_view().contains_key(id.value()) {
            Some(t3.completed_view()[id.value()])
        } else {
            None
        }),
    ensures
        first matches Some(x) && call_ensures(f, (task,), x),
        second is None,
{
    let last = t0.pending_view().len() as int;
    assert(t1.pending_view()[last] == (id.value(), task, true));
}

/// A task made with `create_ignore` leaves no result behind when processed.
pub proof fn lemma_ignored_task_leaves_no_result<T: Task>(t0: Tasks<T>, t1: Tasks<T>, t2: Tasks<T>, task: T)
    requires
        t0.well_formed(),
        // `create_ignore(task)` took `t0` to `t1`
        t1.pending_view() == t0.pending_view().push((t0.next_view(), task, false)),
        t1.completed_view() == t0.completed_view(),
        // `process` took `t1` to `t2`
        forall|k: u32| #![trigger t2.completed_view().contains_key(k)]
            !kept_id(t1.pending_view(), t1.pending_view().len() as int, k)
            ==> (t2.completed_view().contains_key(k) == t1.completed_view().contains_key(k)
                && (t1.completed_view().contains_key(k) ==> t2.completed_view()[k] == t1.completed_view()[k])),
    ensures
        !t2.completed_view().contains_key(t0.next_view()),
{
    let k = t0.next_view();
    let p = t1.pending_view();
    if kept_id(p, p.len() as int, k) {
        let i = choose|i: int| 0 <= i < p.len() && p[i].0 == k && p[i].2;
        if i < t0.pending_view().len() {
            assert(p[i] == t0.pending_view()[i]);
            assert(1 <= t0.pending_view()[i].0 < t0.next_view());
        }
    }
    assert(!t0.completed_view().contains_key(k));
}

} // verus!
