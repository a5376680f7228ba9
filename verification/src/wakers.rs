//! The executors' wakers.

use std::collections::HashMap;

use vstd::prelude::*;

use crate::batch::WakeBatch;
use crate::class::Entitlement;
use crate::laws::{
    law_dispatch_only_admits, law_moves_on, law_polling_again_changes_nothing,
    law_woken_are_admitted, lemma_after, lemma_entitle_all_moves_on, moment, Operation,
};
use crate::model::SchedulerModel;

verus! {

/// The wakers that executors have left, each under the identifier of its task.
///
/// What a waker is, and whether two of them wake the same executor, is the
/// owner's knowledge.
#[derive(Debug)]
pub struct Wakers<W> {
    wakers: HashMap<u64, W>,
}

impl<W> View for Wakers<W> {
    type V = Map<u64, W>;

    closed spec fn view(&self) -> Map<u64, W> {
        self.wakers@
    }
}

/// The wakers to wake for the tasks of a batch, in order. A task without one is
/// passed over.
pub open spec fn executors<W>(wakers: Map<u64, W>, woken: Seq<u64>) -> Seq<W>
    decreases woken.len(),
{
    if woken.len() == 0 {
        Seq::empty()
    } else {
        let rest = executors(wakers, woken.drop_last());
        if wakers.contains_key(woken.last()) {
            rest.push(wakers[woken.last()])
        } else {
            rest
        }
    }
}

impl<W> Wakers<W> {
    /// Makes an empty table.
    pub fn new() -> (wakers: Wakers<W>)
        ensures
            wakers@ == Map::<u64, W>::empty(),
    {
        Wakers { wakers: HashMap::new() }
    }

    /// Returns the waker of a task.
    pub fn get(&self, id: u64) -> (waker: Option<&W>)
        ensures
            waker is Some == self@.contains_key(id),
            waker matches Some(w) ==> *w == self@[id],
    {
        self.wakers.get(&id)
    }

    /// An executor has left a waker for a task. It takes the place of an earlier
    /// one, unless that one, as `same` says, wakes the same executor. Returns the
    /// waker that is not kept, if any, to be dropped by the owner.
    pub fn register(&mut self, id: u64, waker: W, same: bool) -> (dropped: Option<W>)
        ensures
            same && old(self)@.contains_key(id) ==> final(self)@ == old(self)@ && dropped == Some(
                waker,
            ),
            !(same && old(self)@.contains_key(id)) ==> {
                &&& final(self)@ == old(self)@.insert(id, waker)
                &&& dropped == (if old(self)@.contains_key(id) {
                    Some(old(self)@[id])
                } else {
                    None
                })
            },
    {
        if same && self.wakers.contains_key(&id) {
            Some(waker)
        } else {
            self.wakers.insert(id, waker)
        }
    }

    /// A task has ended. Returns its waker, if any, to be dropped by the owner.
    pub fn remove(&mut self, id: u64) -> (removed: Option<W>)
        ensures
            final(self)@ == old(self)@.remove(id),
            removed == (if old(self)@.contains_key(id) {
                Some(old(self)@[id])
            } else {
                None
            }),
    {
        self.wakers.remove(&id)
    }

    /// Returns the wakers of the tasks of a batch, in the order in which they are
    /// to be woken.
    pub fn of(&self, batch: WakeBatch) -> (wakers: Vec<&W>)
        ensures
            wakers@.len() == executors(self@, batch@).len(),
            forall|i: int|
                0 <= i < wakers@.len() ==> *(#[trigger] wakers@[i]) == executors(
                    self@,
                    batch@,
                )[i],
    {
        let tasks = batch.into_tasks();
        let mut wakers: Vec<&W> = Vec::new();
        let mut i: usize = 0;
        assert(tasks@.take(0) =~= Seq::empty());
        while i < tasks.len()
            invariant
                i <= tasks@.len(),
                wakers@.len() == executors(self@, tasks@.take(i as int)).len(),
                forall|j: int|
                    0 <= j < wakers@.len() ==> *(#[trigger] wakers@[j]) == executors(
                        self@,
                        tasks@.take(i as int),
                    )[j],
            decreases tasks@.len() - i,
        {
            let id = tasks[i];
            proof {
                let done = tasks@.take(i + 1);
                assert(done.drop_last() =~= tasks@.take(i as int));
                assert(done.last() == id);
            }
            if let Some(waker) = self.get(id) {
                wakers.push(waker);
            }
            i = i + 1;
        }
        assert(tasks@.take(i as int) =~= tasks@);
        wakers
    }
}

/// The wakers of a batch are those of its tasks, in their order: a batch that is
/// made of two is woken as the one and then the other, and a task is woken through
/// the waker that is kept for it, or not at all.
pub proof fn law_batches_are_woken_in_order<W>(
    wakers: Map<u64, W>,
    first: Seq<u64>,
    second: Seq<u64>,
    id: u64,
)
    ensures
        executors(wakers, first + second) == executors(wakers, first) + executors(wakers, second),
        wakers.contains_key(id) ==> executors(wakers, seq![id]) == seq![wakers[id]],
        !wakers.contains_key(id) ==> executors(wakers, seq![id]).len() == 0,
        executors(wakers, Seq::<u64>::empty()).len() == 0,
    decreases second.len(),
{
    assert(seq![id].drop_last() =~= Seq::<u64>::empty());
    assert(executors(wakers, seq![id].drop_last()) == Seq::<W>::empty());
    if wakers.contains_key(id) {
        assert(executors(wakers, seq![id]) =~= seq![wakers[id]]);
    }
    if second.len() == 0 {
        assert(first + second =~= first);
        assert(executors(wakers, first) + executors(wakers, second) =~= executors(wakers, first));
    } else {
        let rest = second.drop_last();
        law_batches_are_woken_in_order(wakers, first, rest, id);
        assert((first + second).drop_last() =~= first + rest);
        assert((first + second).last() == second.last());
        assert(executors(wakers, first + second) =~= executors(wakers, first) + executors(
            wakers,
            second,
        ));
    }
}

/// Each task of a batch that has a waker is woken through that one.
pub proof fn law_tasks_are_woken_through_their_wakers<W>(
    wakers: Map<u64, W>,
    woken: Seq<u64>,
    id: u64,
)
    requires
        woken.contains(id),
        wakers.contains_key(id),
    ensures
        executors(wakers, woken).contains(wakers[id]),
    decreases woken.len(),
{
    let rest = woken.drop_last();
    let all = executors(wakers, woken);
    if woken.last() == id {
        assert(all[all.len() - 1] == wakers[id]);
    } else {
        let i = woken.index_of(id);
        assert(rest[i] == id);
        law_tasks_are_woken_through_their_wakers(wakers, rest, id);
        let before = executors(wakers, rest);
        assert(all[before.index_of(wakers[id])] == wakers[id]);
    }
}

/// No waker is woken that is not kept for a task of the batch.
pub proof fn law_no_other_waker_is_woken<W>(wakers: Map<u64, W>, woken: Seq<u64>, waker: W)
    requires
        forall|id: u64| #[trigger]
            wakers.contains_key(id) && woken.contains(id) ==> wakers[id] != waker,
    ensures
        !executors(wakers, woken).contains(waker),
    decreases woken.len(),
{
    if woken.len() > 0 {
        let rest = woken.drop_last();
        assert forall|id: u64| #[trigger]
            wakers.contains_key(id) && rest.contains(id) implies wakers[id] != waker by {
            assert(woken[rest.index_of(id)] == id);
        }
        law_no_other_waker_is_woken(wakers, rest, waker);
        assert(woken[woken.len() - 1] == woken.last());
        let before = executors(wakers, rest);
        let all = executors(wakers, woken);
        if all.contains(waker) {
            let i = all.index_of(waker);
            if i < before.len() {
                assert(before[i] == waker);
            }
        }
    }
}

/// When an executor comes again to poll a waiting task, and leaves another waker
/// `later`, the task waits on as it did and nobody is woken; and when the task is
/// admitted, it is woken through `later`, and not through the waker that it had,
/// unless another task of the batch has that one.
pub proof fn law_latest_waker_is_woken<W>(
    m: SchedulerModel,
    wakers: Map<u64, W>,
    id: u64,
    later: W,
    now: u64,
    woken: Seq<u64>,
)
    requires
        m.wf(),
        m.phase(id) is Queued,
        wakers.contains_key(id),
        wakers[id] != later,
        woken.contains(id),
        forall|other: u64| #[trigger]
            wakers.contains_key(other) && other != id && woken.contains(other) ==> wakers[other]
                != wakers[id],
    ensures
        m.begin_poll(id, now).1 is Wait,
        m.begin_poll(id, now).2 == Seq::<u64>::empty(),
        m.begin_poll(id, now).0.stats() == m.stats(),
        executors(wakers.insert(id, later), woken).contains(later),
        !executors(wakers.insert(id, later), woken).contains(wakers[id]),
{
    law_polling_again_changes_nothing(m, id, now);
    let kept = wakers.insert(id, later);
    law_tasks_are_woken_through_their_wakers(kept, woken, id);
    assert forall|other: u64| #[trigger]
        kept.contains_key(other) && woken.contains(other) implies kept[other] != wakers[id] by {
        if other != id {
            assert(wakers.contains_key(other));
        }
    }
    law_no_other_waker_is_woken(kept, woken, wakers[id]);
}

/// Whether a table of wakers is in step with a scheduler: of the live tasks those
/// have a waker that the scheduler knows to have one, and no waker is there before
/// its task.
pub open spec fn in_step<W>(m: SchedulerModel, wakers: Map<u64, W>) -> bool {
    &&& forall|id: u64| #[trigger]
        m.tasks.contains_key(id) ==> m.tasks[id].has_waker == wakers.contains_key(id)
    &&& forall|id: u64| #[trigger] wakers.contains_key(id) ==> id < m.next_task
}

/// What an operation does to the table: an executor that comes to poll leaves its
/// waker, and the waker of a task whose future has returned, or has been dropped,
/// goes.
pub open spec fn keeps_wakers<W>(op: Operation, before: Map<u64, W>, after: Map<u64, W>) -> bool {
    match op {
        Operation::BeginPoll { id, .. } => {
            &&& after.contains_key(id)
            &&& after.remove(id) == before.remove(id)
        },
        Operation::FinishReady { id, .. } => after == before.remove(id),
        Operation::Cancel { id, .. } => after == before.remove(id),
        _ => after == before,
    }
}

/// Whether an operation hands back exactly these tasks, to be woken in this order.
pub open spec fn wakes(m: SchedulerModel, op: Operation, woken: Seq<u64>) -> bool {
    match op {
        Operation::BeginPoll { id, now } => woken == m.begin_poll(id, now).2,
        Operation::Notify { id, c, now } => woken == m.notify(id, c, now).1,
        Operation::FinishPending { id, exec_time, now } => woken == m.finish_pending(
            id,
            exec_time,
            now,
        ).1,
        Operation::FinishReady { id, exec_time, now } => woken == m.finish_ready(
            id,
            exec_time,
            now,
        ).1,
        Operation::Cancel { id, now } => woken == m.cancel(id, now).1,
        Operation::Entitle { c, entitlement, now } => woken == m.entitle(c, entitlement).dispatch(
            now,
        ).1,
        Operation::EntitleAll { weights, now } => woken == m.entitle_all(weights).dispatch(now).1,
        Operation::Limit { max_concurrent_polls, now } => woken == m.limit(
            max_concurrent_polls,
        ).dispatch(now).1,
        Operation::Disable => woken.no_duplicates() && woken.to_set() == m.drained(),
        Operation::Schedule { .. } | Operation::Enable => woken == Seq::<u64>::empty(),
    }
}

/// A task has a waker from its first poll on.
proof fn lemma_has_waker(m: SchedulerModel, op: Operation)
    requires
        m.wf(),
        m.allows(op),
    ensures
        forall|id: u64| #[trigger]
            m.after(op).tasks.contains_key(id) ==> {
                if op matches Operation::BeginPoll { id: polled, .. } && polled == id {
                    m.after(op).tasks[id].has_waker
                } else if m.tasks.contains_key(id) {
                    m.after(op).tasks[id].has_waker == m.tasks[id].has_waker
                } else {
                    id == m.next_task && !m.after(op).tasks[id].has_waker
                }
            },
        op is FinishReady ==> !m.after(op).tasks.contains_key(op->FinishReady_id),
        op is Cancel ==> !m.after(op).tasks.contains_key(op->Cancel_id),
{
    lemma_after(m, op);
    let before = m.before_dispatch(op);
    law_dispatch_only_admits(before, moment(op));
    match op {
        Operation::EntitleAll { weights, .. } => {
            lemma_entitle_all_moves_on(m, weights);
        },
        _ => {},
    }
    assert forall|id: u64| #[trigger] m.after(op).tasks.contains_key(id) implies {
        if op matches Operation::BeginPoll { id: polled, .. } && polled == id {
            m.after(op).tasks[id].has_waker
        } else if m.tasks.contains_key(id) {
            m.after(op).tasks[id].has_waker == m.tasks[id].has_waker
        } else {
            id == m.next_task && !m.after(op).tasks[id].has_waker
        }
    } by {
        assert(before.tasks.contains_key(id));
    }
}

/// A table that is empty is in step with a scheduler that has done nothing yet.
pub proof fn law_wakers_are_in_step_at_first<W>(
    max_concurrent_polls: usize,
    entitlements: Map<u32, Entitlement>,
)
    ensures
        in_step(
            SchedulerModel::initial(max_concurrent_polls, entitlements),
            Map::<u64, W>::empty(),
        ),
{
}

/// A table that is in step stays so, whatever happens: it is enough to register
/// the waker of each executor that comes to poll, and to remove that of each task
/// that ends.
pub proof fn law_wakers_stay_in_step<W>(
    m: SchedulerModel,
    op: Operation,
    before: Map<u64, W>,
    after: Map<u64, W>,
)
    requires
        m.wf(),
        m.allows(op),
        op matches Operation::BeginPoll { id, .. } ==> id < m.next_task,
        in_step(m, before),
        keeps_wakers(op, before, after),
    ensures
        in_step(m.after(op), after),
{
    lemma_has_waker(m, op);
    law_moves_on(m, op);
    let n = m.after(op);
    match op {
        Operation::BeginPoll { id, .. } => {
            assert forall|x: u64| x != id implies #[trigger] after.contains_key(x)
                == before.contains_key(x) by {
                assert(after.remove(id).contains_key(x) == before.remove(id).contains_key(x));
            }
        },
        _ => {},
    }
    assert forall|x: u64| #[trigger] n.tasks.contains_key(x) implies n.tasks[x].has_waker
        == after.contains_key(x) by {
        if m.tasks.contains_key(x) {
            assert(m.tasks[x].has_waker == before.contains_key(x));
        } else {
            assert(!before.contains_key(x));
        }
    }
    assert forall|x: u64| #[trigger] after.contains_key(x) implies x < n.next_task by {
        if !(op matches Operation::BeginPoll { id, .. } && id == x) {
            assert(before.contains_key(x));
        }
    }
}

/// A waker is kept until its task is polled again or ends.
pub proof fn law_wakers_are_kept<W>(
    op: Operation,
    before: Map<u64, W>,
    after: Map<u64, W>,
    id: u64,
)
    requires
        keeps_wakers(op, before, after),
        match op {
            Operation::BeginPoll { id: other, .. } => other != id,
            Operation::FinishReady { id: other, .. } => other != id,
            Operation::Cancel { id: other, .. } => other != id,
            _ => true,
        },
    ensures
        after.contains_key(id) == before.contains_key(id),
        before.contains_key(id) ==> after[id] == before[id],
{
    match op {
        Operation::BeginPoll { id: other, .. } => {
            assert(after.remove(other).contains_key(id) == before.remove(other).contains_key(id));
            assert(after.remove(other)[id] == before.remove(other)[id]);
        },
        _ => {},
    }
}

/// The tasks to wake are live, and have an executor to wake.
proof fn lemma_woken_have_wakers(m: SchedulerModel, op: Operation, woken: Seq<u64>)
    requires
        m.wf(),
        m.allows(op),
        wakes(m, op, woken),
    ensures
        forall|id: u64| #[trigger]
            woken.contains(id) ==> m.after(op).tasks.contains_key(id) && m.after(
                op,
            ).tasks[id].has_waker,
{
    lemma_after(m, op);
    let before = m.before_dispatch(op);
    let now = moment(op);
    let n = m.after(op);
    law_dispatch_only_admits(before, now);
    law_woken_are_admitted(before, now);
    let admitted = before.dispatch(now).1;
    assert forall|id: u64| #[trigger] admitted.contains(id) implies n.tasks.contains_key(id)
        && n.tasks[id].has_waker by {
        assert(before.tasks.contains_key(id));
    }
    match op {
        Operation::Notify { id, .. } => {
            assert forall|x: u64| #[trigger] woken.contains(x) implies admitted.contains(x) || (x
                == id && m.tasks.contains_key(id) && m.tasks[id].has_waker && m.phase(
                id,
            ) is Idle && m.is_direct(id)) by {}
            lemma_has_waker(m, op);
        },
        Operation::FinishPending { id, .. } => {
            let own = m.own_waker(id);
            assert forall|x: u64| #[trigger] woken.contains(x) implies admitted.contains(x) || (x
                == id && m.tasks[id].has_waker && m.phase(id).holds_slot()) by {
                let i = woken.index_of(x);
                if i < admitted.len() {
                    assert(woken[i] == admitted[i] || !(m.phase(id) is PollingNotified));
                }
            }
            lemma_has_waker(m, op);
            if m.phase(id).holds_slot() {
                assert(before.tasks.contains_key(id));
            }
        },
        Operation::Disable => {
            assert forall|x: u64| #[trigger] woken.contains(x) implies n.tasks.contains_key(x)
                && n.tasks[x].has_waker by {
                assert(woken.to_set().contains(x));
                assert(m.drained().contains(x));
            }
        },
        _ => {},
    }
}

/// The wakers of a batch are those of its tasks, one each, if all have one.
proof fn lemma_one_waker_each<W>(wakers: Map<u64, W>, woken: Seq<u64>)
    requires
        forall|id: u64| #[trigger] woken.contains(id) ==> wakers.contains_key(id),
    ensures
        executors(wakers, woken).len() == woken.len(),
        forall|i: int|
            0 <= i < woken.len() ==> (#[trigger] executors(wakers, woken)[i]) == wakers[woken[i]],
    decreases woken.len(),
{
    if woken.len() > 0 {
        let rest = woken.drop_last();
        assert forall|id: u64| #[trigger] rest.contains(id) implies wakers.contains_key(id) by {
            assert(woken[rest.index_of(id)] == id);
            assert(woken.contains(id));
        }
        lemma_one_waker_each(wakers, rest);
        assert(woken.contains(woken[woken.len() - 1]));
        assert forall|i: int| 0 <= i < woken.len() implies (#[trigger] executors(
            wakers,
            woken,
        )[i]) == wakers[woken[i]] by {
            if i < rest.len() {
                assert(executors(wakers, rest)[i] == wakers[rest[i]]);
            }
        }
    }
}

/// No wake is lost: as long as the table is in step, each task that an operation
/// hands back is woken, once and in its turn, through the waker that is kept for
/// it.
pub proof fn law_no_wake_is_lost<W>(
    m: SchedulerModel,
    op: Operation,
    wakers: Map<u64, W>,
    woken: Seq<u64>,
)
    requires
        m.wf(),
        m.allows(op),
        wakes(m, op, woken),
        in_step(m.after(op), wakers),
    ensures
        executors(wakers, woken).len() == woken.len(),
        forall|i: int|
            0 <= i < woken.len() ==> (#[trigger] executors(wakers, woken)[i]) == wakers[woken[i]],
{
    lemma_woken_have_wakers(m, op, woken);
    lemma_one_waker_each(wakers, woken);
}

} // verus!
