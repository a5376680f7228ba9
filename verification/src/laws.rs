//! What can be relied on of a scheduler, whatever happens to it.

use vstd::prelude::*;

use crate::class::{Entitlement, TaskClass, MILLICORES_PER_CORE};
use crate::control::{PollDecision, TaskControl, TaskPhase};
use crate::invariants::{
    lemma_count_wake, lemma_disable, lemma_dispatch, lemma_enable, lemma_enqueue, lemma_entitle,
    lemma_free_slot, lemma_go, lemma_limit, lemma_release, lemma_schedule, lemma_serve,
    lemma_some_class_is_first, lemma_touch_task, lemma_withdraw,
};
use crate::model::{
    is_holder, is_holder_in, is_in, is_waiting, lemma_matching_insert, lemma_next_class,
    lemma_serve_shrinks, matching, SchedulerModel,
};
use crate::scheduler::HandleModel;
use crate::stats::ClassStats;

verus! {

/// One thing that can happen to a scheduler.
pub ghost enum Operation {
    /// A future is wrapped.
    Schedule { class: TaskClass, now: u64 },
    /// An executor comes to poll a task.
    BeginPoll { id: u64, now: u64 },
    /// The inner future of a task of class `c` calls its proxy waker.
    Notify { id: u64, c: u32, now: u64 },
    /// A poll leaves its future pending.
    FinishPending { id: u64, exec_time: Option<u64>, now: u64 },
    /// A poll completes its future.
    FinishReady { id: u64, exec_time: Option<u64>, now: u64 },
    /// A future is dropped.
    Cancel { id: u64, now: u64 },
    /// A class is entitled anew.
    Entitle { c: u32, entitlement: Entitlement, now: u64 },
    /// Several classes are given new weights.
    EntitleAll { weights: Seq<(TaskClass, u32)>, now: u64 },
    /// The number of slots changes.
    Limit { max_concurrent_polls: usize, now: u64 },
    /// The scheduler is enabled.
    Enable,
    /// The scheduler is disabled.
    Disable,
}

impl SchedulerModel {
    /// Whether a task about to queue can do so.
    pub open spec fn can_enqueue(self, id: u64) -> bool {
        &&& self.has_room(self.tasks[id].class@)
        &&& self.class_of(id).queue.len() < usize::MAX
    }

    /// Whether something can happen to the scheduler.
    pub open spec fn allows(self, op: Operation) -> bool {
        match op {
            Operation::Schedule { .. } => self.enabled ==> self.next_task < u64::MAX,
            Operation::BeginPoll { id, .. } => self.phase(id) is Idle && !self.is_direct(id)
                ==> self.can_enqueue(id),
            Operation::Notify { id, c, .. } => {
                &&& self.classes.contains_key(c)
                &&& self.tasks.contains_key(id) ==> self.tasks[id].class@ == c
                &&& self.phase(id) is Idle && !self.is_direct(id) ==> self.can_enqueue(id)
            },
            Operation::FinishPending { id, .. } => {
                &&& self.tasks.contains_key(id)
                &&& self.tasks[id].may_finish(self.is_direct(id))
                &&& self.phase(id) is PollingNotified && !self.is_direct(id) ==> self.can_enqueue(
                    id,
                )
            },
            Operation::FinishReady { id, .. } => {
                &&& self.tasks.contains_key(id)
                &&& self.tasks[id].may_finish(self.is_direct(id))
            },
            Operation::Cancel { .. } => true,
            Operation::Entitle { entitlement, .. } => entitlement.valid(),
            Operation::EntitleAll { weights, .. } => forall|i: int|
                0 <= i < weights.len() ==> (#[trigger] weights[i]).1 > 0,
            Operation::Limit { max_concurrent_polls, .. } => max_concurrent_polls > 0,
            Operation::Enable | Operation::Disable => true,
        }
    }

    /// The scheduler after something has happened to it.
    pub open spec fn after(self, op: Operation) -> SchedulerModel {
        match op {
            Operation::Schedule { class, now } => self.schedule(class, now),
            Operation::BeginPoll { id, now } => self.begin_poll(id, now).0,
            Operation::Notify { id, c, now } => self.notify(id, c, now).0,
            Operation::FinishPending { id, exec_time, now } => self.finish_pending(
                id,
                exec_time,
                now,
            ).0,
            Operation::FinishReady { id, exec_time, now } => self.finish_ready(
                id,
                exec_time,
                now,
            ).0,
            Operation::Cancel { id, now } => self.cancel(id, now).0,
            Operation::Entitle { c, entitlement, now } => self.entitle(c, entitlement).dispatch(
                now,
            ).0,
            Operation::EntitleAll { weights, now } => self.entitle_all(weights).dispatch(now).0,
            Operation::Limit { max_concurrent_polls, now } => self.limit(
                max_concurrent_polls,
            ).dispatch(now).0,
            Operation::Enable => self.enable(),
            Operation::Disable => self.disable(),
        }
    }

    /// The scheduler right before it fills its free slots, where the operation
    /// ends with that.
    pub open spec fn before_dispatch(self, op: Operation) -> SchedulerModel {
        match op {
            Operation::BeginPoll { id, now } => if self.phase(id) is Idle && !self.is_direct(id) {
                self.register(id).enqueue(id, now)
            } else {
                self.after(op)
            },
            Operation::Notify { id, c, now } => if self.phase(id) is Idle && !self.is_direct(id) {
                self.put_class(c, self.classes[c].count_wake()).enqueue(id, now)
            } else {
                self.after(op)
            },
            Operation::FinishPending { id, exec_time, now } => match self.phase(id) {
                TaskPhase::Polling => self.release(id, exec_time),
                TaskPhase::PollingNotified => if self.is_direct(id) {
                    self.release(id, exec_time)
                } else {
                    self.release(id, exec_time).enqueue(id, now)
                },
                _ => self,
            },
            Operation::FinishReady { id, exec_time, .. } => if self.phase(id).holds_slot() {
                self.release(id, exec_time).complete(id)
            } else {
                self.complete(id)
            },
            Operation::Cancel { id, .. } => match self.phase(id) {
                TaskPhase::Finished => self,
                TaskPhase::Idle => self.abandon(id),
                TaskPhase::Queued => self.withdraw(id).abandon(id),
                _ => self.free_slot(id).abandon(id),
            },
            Operation::Entitle { c, entitlement, .. } => self.entitle(c, entitlement),
            Operation::EntitleAll { weights, .. } => self.entitle_all(weights),
            Operation::Limit { max_concurrent_polls, .. } => self.limit(max_concurrent_polls),
            _ => self.after(op),
        }
    }
}

/// The moment at which something happens.
pub open spec fn moment(op: Operation) -> u64 {
    match op {
        Operation::Schedule { now, .. } => now,
        Operation::BeginPoll { now, .. } => now,
        Operation::Notify { now, .. } => now,
        Operation::FinishPending { now, .. } => now,
        Operation::FinishReady { now, .. } => now,
        Operation::Cancel { now, .. } => now,
        Operation::Entitle { now, .. } => now,
        Operation::EntitleAll { now, .. } => now,
        Operation::Limit { now, .. } => now,
        Operation::Enable | Operation::Disable => 0,
    }
}

/// Filling the slots again changes nothing.
proof fn lemma_dispatch_again(m: SchedulerModel, now: u64)
    requires
        m.wf(),
    ensures
        m.dispatch(now) == (m, Seq::<u64>::empty()),
{
    law_dispatch_stops(m, now);
}

/// Every operation ends with filling the free slots, whether or not it has to.
pub proof fn lemma_after(m: SchedulerModel, op: Operation)
    requires
        m.wf(),
        m.allows(op),
    ensures
        m.before_dispatch(op).consistent(),
        m.after(op) == m.before_dispatch(op).dispatch(moment(op)).0,
{
    let now = moment(op);
    match op {
        Operation::Schedule { class, .. } => {
            lemma_schedule(m, class, now);
            lemma_dispatch_again(m.after(op), now);
        },
        Operation::BeginPoll { id, .. } => {
            if m.tasks.contains_key(id) {
                let task = TaskControl { has_waker: true, ..m.tasks[id] };
                let r = m.register(id);
                lemma_touch_task(m, id, task);
                if m.phase(id) is Idle && !m.is_direct(id) {
                    lemma_enqueue(r, id, now);
                } else {
                    if m.phase(id) is Admitted {
                        lemma_touch_task(
                            r,
                            id,
                            TaskControl { phase: TaskPhase::Polling, ..r.tasks[id] },
                        );
                    }
                    lemma_dispatch_again(m.after(op), now);
                }
            } else {
                lemma_dispatch_again(m, now);
            }
        },
        Operation::Notify { id, c, .. } => {
            lemma_count_wake(m, c);
            let r = m.put_class(c, m.classes[c].count_wake());
            if m.phase(id) is Idle && !m.is_direct(id) {
                lemma_enqueue(r, id, now);
            } else {
                if m.phase(id) is Polling {
                    lemma_touch_task(
                        r,
                        id,
                        TaskControl { phase: TaskPhase::PollingNotified, ..r.tasks[id] },
                    );
                }
                lemma_dispatch_again(m.after(op), now);
            }
        },
        Operation::FinishPending { id, exec_time, .. } => {
            if m.phase(id).holds_slot() {
                lemma_release(m, id, exec_time);
                if m.phase(id) is PollingNotified && !m.is_direct(id) {
                    lemma_enqueue(m.release(id, exec_time), id, now);
                }
            } else {
                lemma_dispatch_again(m, now);
            }
        },
        Operation::FinishReady { id, exec_time, .. } => {
            if m.phase(id).holds_slot() {
                lemma_release(m, id, exec_time);
                lemma_go(m.release(id, exec_time), id);
            } else {
                lemma_go(m, id);
                lemma_dispatch_again(m.complete(id), now);
            }
        },
        Operation::Cancel { id, .. } => {
            match m.phase(id) {
                TaskPhase::Finished => {
                    lemma_dispatch_again(m, now);
                },
                TaskPhase::Idle => {
                    lemma_go(m, id);
                },
                TaskPhase::Queued => {
                    lemma_withdraw(m, id);
                    lemma_go(m.withdraw(id), id);
                },
                _ => {
                    lemma_free_slot(m, id);
                    lemma_go(m.free_slot(id), id);
                },
            }
        },
        Operation::Entitle { c, entitlement, .. } => {
            lemma_entitle(m, c, entitlement);
        },
        Operation::EntitleAll { weights, .. } => {
            lemma_entitle_all(m, weights);
        },
        Operation::Limit { max_concurrent_polls, .. } => {
            lemma_limit(m, max_concurrent_polls);
        },
        Operation::Enable => {
            lemma_enable(m);
            lemma_dispatch_again(m.enable(), now);
        },
        Operation::Disable => {
            lemma_disable(m);
            lemma_dispatch_again(m.disable(), now);
        },
    }
}

/// Several classes can be given new weights.
pub proof fn lemma_entitle_all(m: SchedulerModel, weights: Seq<(TaskClass, u32)>)
    requires
        m.consistent(),
        forall|i: int| 0 <= i < weights.len() ==> (#[trigger] weights[i]).1 > 0,
    ensures
        m.entitle_all(weights).consistent(),
    decreases weights.len(),
{
    if weights.len() > 0 {
        let rest = weights.drop_last();
        let (class, weight) = weights.last();
        assert forall|i: int| 0 <= i < rest.len() implies (#[trigger] rest[i]).1 > 0 by {
            assert(rest[i] == weights[i]);
        }
        lemma_entitle_all(m, rest);
        assert(weights[weights.len() - 1].1 > 0);
        assert(0 < weight * MILLICORES_PER_CORE <= u64::MAX) by (nonlinear_arith)
            requires
                0 < weight <= u32::MAX,
                MILLICORES_PER_CORE == 1000,
        ;
        lemma_entitle(m.entitle_all(rest), class@, Entitlement::weighted(weight));
    }
}

/// Whatever happens to a scheduler, it stays in order: its counters fit its
/// tasks and queues, as many slots are taken as tasks hold one, and no slot is
/// free while a task waits.
pub proof fn law_order_is_kept(m: SchedulerModel, op: Operation)
    requires
        m.wf(),
        m.allows(op),
    ensures
        m.after(op).wf(),
{
    lemma_after(m, op);
    lemma_dispatch(m.before_dispatch(op), moment(op));
}

/// What filling the free slots leaves as it was: everything but the waiting
/// tasks and the counters of their admissions.
pub open spec fn only_admits(m: SchedulerModel, n: SchedulerModel) -> bool {
    &&& n.max_concurrent_polls == m.max_concurrent_polls
    &&& n.enabled == m.enabled
    &&& n.next_task == m.next_task
    &&& n.direct_before == m.direct_before
    &&& n.classes.dom() == m.classes.dom()
    &&& n.tasks.dom() == m.tasks.dom()
    &&& m.virtual_time <= n.virtual_time
    &&& m.active <= n.active
    &&& n.active > m.active ==> n.active <= m.max_concurrent_polls
    &&& forall|id: u64| #[trigger]
        m.tasks.contains_key(id) ==> task_only_admitted(m.tasks[id], n.tasks[id])
    &&& forall|c: u32| #[trigger] m.classes.contains_key(c) ==> class_only_admits(m, n, c)
}

/// A task stays as it is, unless it waited: then it may have been admitted, or
/// have become idle for want of an executor to wake.
pub open spec fn task_only_admitted(before: TaskControl, after: TaskControl) -> bool {
    ||| after == before
    ||| before.phase is Queued && after == (if before.has_waker {
        TaskControl { phase: TaskPhase::Admitted, queued_at: None, admitted: true, ..before }
    } else {
        TaskControl { phase: TaskPhase::Idle, ..before }
    })
}

/// A class keeps its pass, its entitlement and all counters but those of its
/// queue and its admissions, and its queue loses tasks from the front alone.
pub open spec fn class_only_admits(m: SchedulerModel, n: SchedulerModel, c: u32) -> bool {
    let before = m.classes[c];
    let after = n.classes[c];
    &&& after.pass == before.pass
    &&& after.entitlement() == before.entitlement()
    &&& after.stats.tasks == before.stats.tasks
    &&& after.stats.wakes == before.stats.wakes
    &&& after.stats.completed == before.stats.completed
    &&& after.stats.cancelled == before.stats.cancelled
    &&& after.stats.total_exec_time == before.stats.total_exec_time
    &&& before.stats.polls <= after.stats.polls
    &&& before.stats.total_admission_wait <= after.stats.total_admission_wait
    &&& after.queue.len() <= before.queue.len()
    &&& after.queue == before.queue.skip(before.queue.len() - after.queue.len())
}

/// Serving one task admits it and does nothing else.
proof fn lemma_serve_only_admits(m: SchedulerModel, c: u32, now: u64)
    requires
        m.consistent(),
        m.backlogged(c),
        m.active < m.max_concurrent_polls,
    ensures
        only_admits(m, m.serve(c, now)),
{
    let n = m.serve(c, now);
    let id = m.classes[c].queue[0];
    assert(m.queue_ok(c) && m.class_ok(c));
    assert(n.classes.dom() =~= m.classes.dom());
    assert(n.tasks.dom() =~= m.tasks.dom());
    assert forall|d: u32| #[trigger] m.classes.contains_key(d) implies class_only_admits(
        m,
        n,
        d,
    ) by {
        if d != c {
            assert(m.classes[d].queue =~= m.classes[d].queue.skip(0));
        }
    }
}

/// Admissions after admissions are admissions.
proof fn lemma_only_admits_twice(a: SchedulerModel, b: SchedulerModel, c: SchedulerModel)
    requires
        only_admits(a, b),
        only_admits(b, c),
    ensures
        only_admits(a, c),
{
    assert forall|id: u64| #[trigger] a.tasks.contains_key(id) implies task_only_admitted(
        a.tasks[id],
        c.tasks[id],
    ) by {
        assert(b.tasks.contains_key(id));
    }
    assert forall|d: u32| #[trigger] a.classes.contains_key(d) implies class_only_admits(
        a,
        c,
        d,
    ) by {
        assert(b.classes.contains_key(d));
        assert(class_only_admits(a, b, d) && class_only_admits(b, c, d));
        let qa = a.classes[d].queue;
        let qb = b.classes[d].queue;
        let qc = c.classes[d].queue;
        assert(qc =~= qa.skip(qa.len() - qc.len()));
    }
}

/// Filling the free slots admits waiting tasks and does nothing else.
///
/// Each class is served in the order of its queue, and the limit on concurrent
/// polls is not exceeded by an admission.
pub proof fn law_dispatch_only_admits(m: SchedulerModel, now: u64)
    requires
        m.consistent(),
    ensures
        only_admits(m, m.dispatch(now).0),
    decreases m.waiting().len(),
{
    let n = m.dispatch(now).0;
    if m.active < m.max_concurrent_polls && m.next_class() is Some {
        let c = m.next_class()->0;
        lemma_next_class(m, c);
        lemma_serve(m, c, now);
        lemma_serve_shrinks(m, c, now);
        lemma_serve_only_admits(m, c, now);
        law_dispatch_only_admits(m.serve(c, now), now);
        lemma_only_admits_twice(m, m.serve(c, now), n);
    } else {
        assert forall|c: u32| #[trigger] m.classes.contains_key(c) implies class_only_admits(
            m,
            n,
            c,
        ) by {
            assert(m.classes[c].queue =~= m.classes[c].queue.skip(0));
        }
    }
}

/// The tasks to wake are the ones that were admitted, each once: they waited,
/// their executor can be woken, and each of them now holds a slot that was free.
pub proof fn law_woken_are_admitted(m: SchedulerModel, now: u64)
    requires
        m.consistent(),
    ensures
        m.dispatch(now).1.no_duplicates(),
        m.dispatch(now).0.active == m.active + m.dispatch(now).1.len(),
        forall|id: u64| #[trigger]
            m.dispatch(now).1.contains(id) <==> m.phase(id) is Queued && m.dispatch(now).0.phase(
                id,
            ) is Admitted,
        forall|id: u64| #[trigger] m.dispatch(now).1.contains(id) ==> m.tasks[id].has_waker,
    decreases m.waiting().len(),
{
    if m.active < m.max_concurrent_polls && m.next_class() is Some {
        let c = m.next_class()->0;
        lemma_next_class(m, c);
        lemma_serve(m, c, now);
        lemma_serve_shrinks(m, c, now);
        let served = m.serve(c, now);
        let first = m.classes[c].queue[0];
        assert(m.queue_ok(c));
        law_woken_are_admitted(served, now);
        law_dispatch_only_admits(served, now);
        let rest = served.dispatch(now).1;
        let all = m.dispatch(now).1;
        let n = m.dispatch(now).0;
        let front = m.served(c);
        assert(all == front + rest);
        assert(!rest.contains(first));
        assert forall|id: u64| #[trigger] all.contains(id) <==> front.contains(id)
            || rest.contains(id) by {
            if all.contains(id) {
                let i = all.index_of(id);
                if i < front.len() {
                    assert(front[i] == id);
                } else {
                    assert(rest[i - front.len()] == id);
                }
            }
            if front.contains(id) {
                assert(all[front.index_of(id)] == id);
            }
            if rest.contains(id) {
                assert(all[front.len() + rest.index_of(id)] == id);
            }
        }
        assert(served.tasks.contains_key(first));
        assert(front.contains(first) == m.tasks[first].has_waker) by {
            if m.tasks[first].has_waker {
                assert(front[0] == first);
            }
        }
        assert forall|id: u64| #[trigger] all.contains(id) <==> m.phase(id) is Queued && n.phase(
            id,
        ) is Admitted by {
            if id != first {
                assert(!front.contains(id));
            }
        }
    }
}

/// Of the classes with waiting tasks the one with the lowest pass is served
/// first, and between equal passes the one with the lowest identifier; within
/// the class, the task that has waited longest. Then it is the turn of the class
/// that has the lowest pass now.
pub proof fn law_lowest_pass_is_served_first(m: SchedulerModel, c: u32, now: u64)
    requires
        m.consistent(),
        m.active < m.max_concurrent_polls,
        m.backlogged(c),
        m.is_first(c),
    ensures
        m.serve(c, now).consistent(),
        m.dispatch(now) == (
            m.serve(c, now).dispatch(now).0,
            m.served(c) + m.serve(c, now).dispatch(now).1,
        ),
        m.tasks[m.classes[c].queue[0]].has_waker ==> m.dispatch(now).1[0] == m.classes[c].queue[0],
{
    lemma_next_class(m, c);
    lemma_serve(m, c, now);
}

/// Nobody is served while all slots are taken or nobody waits.
pub proof fn law_dispatch_stops(m: SchedulerModel, now: u64)
    requires
        m.consistent(),
        m.active >= m.max_concurrent_polls || forall|c: u32| !m.backlogged(c),
    ensures
        m.dispatch(now) == (m, Seq::<u64>::empty()),
{
    if m.active < m.max_concurrent_polls {
        if let Some(c) = m.next_class() {
            lemma_next_class(m, c);
        }
    }
}

/// Each live task is in one place at most: it has one entry in a queue, or one
/// slot, or neither. So the waiting tasks and the taken slots together are no more
/// than the live tasks, and so it is within each class.
pub proof fn law_each_task_is_in_one_place(m: SchedulerModel)
    requires
        m.wf(),
    ensures
        m.waiting().len() + m.active <= m.tasks.dom().len(),
        forall|c: u32| #[trigger]
            m.classes.contains_key(c) ==> m.classes[c].stats.queued + m.holders_in(c).len()
                <= m.live_in(c).len(),
        forall|c: u32| #[trigger]
            m.classes.contains_key(c) ==> m.classes[c].stats.queued <= m.classes[c].stats.tasks
                - m.classes[c].stats.completed - m.classes[c].stats.cancelled,
        forall|id: u64|
            !(#[trigger] m.waiting().contains(id) && #[trigger] m.holders().contains(id)),
{
    lemma_matching_finite(m);
    assert(m.waiting().disjoint(m.holders()));
    vstd::set_lib::lemma_set_disjoint_lens(m.waiting(), m.holders());
    vstd::set_lib::lemma_len_subset(m.waiting() + m.holders(), m.tasks.dom());
    assert forall|c: u32| #[trigger] m.classes.contains_key(c) implies
        m.classes[c].stats.queued + m.holders_in(c).len() <= m.live_in(c).len() by {
        assert(m.class_ok(c) && m.queue_ok(c));
        let queue = m.classes[c].queue;
        let waiting = queue.to_set();
        queue.unique_seq_to_set();
        lemma_matching_insert(m.tasks, 0, TaskControl::fresh(TaskClass::of(0), 0), is_in(c));
        lemma_matching_insert(m.tasks, 0, TaskControl::fresh(TaskClass::of(0), 0), is_holder_in(c));
        assert(waiting.disjoint(m.holders_in(c)));
        vstd::set_lib::lemma_set_disjoint_lens(waiting, m.holders_in(c));
        assert((waiting + m.holders_in(c)).subset_of(m.live_in(c)));
        vstd::set_lib::lemma_len_subset(waiting + m.holders_in(c), m.live_in(c));
    }
    assert forall|c: u32| #[trigger] m.classes.contains_key(c) implies m.classes[c].stats.queued
        <= m.classes[c].stats.tasks - m.classes[c].stats.completed
        - m.classes[c].stats.cancelled by {
        assert(m.class_ok(c));
    }
}

/// The sets of matching tasks are finite.
pub proof fn lemma_matching_finite(m: SchedulerModel)
    requires
        m.consistent(),
    ensures
        m.waiting().finite(),
        m.holders().finite(),
{
    lemma_matching_insert(m.tasks, 0, TaskControl::fresh(TaskClass::of(0), 0), is_waiting());
    lemma_matching_insert(m.tasks, 0, TaskControl::fresh(TaskClass::of(0), 0), is_holder());
}

/// A sum over classes.
pub open spec fn sum_over(classes: Set<u32>, of: spec_fn(u32) -> int) -> int
    decreases classes.len(),
    when classes.finite()
{
    if classes.len() == 0 {
        0
    } else {
        let c = classes.choose();
        of(c) + sum_over(classes.remove(c), of)
    }
}

/// The sums of counters that a snapshot lists.
pub open spec fn sum_queued(stats: Map<u32, ClassStats>) -> int {
    sum_over(stats.dom(), |c: u32| stats[c].queued as int)
}

/// The futures that a snapshot lists as wrapped, and neither as returned nor as
/// dropped.
pub open spec fn sum_live(stats: Map<u32, ClassStats>) -> int {
    sum_over(stats.dom(), |c: u32| stats[c].tasks - stats[c].completed - stats[c].cancelled)
}

/// Belonging to one of some classes, and satisfying `p`.
spec fn among(classes: Set<u32>, p: spec_fn(TaskControl) -> bool) -> spec_fn(TaskControl) -> bool {
    |t: TaskControl| classes.contains(t.class@) && p(t)
}

/// Belonging to class `c`, and satisfying `p`.
spec fn within_class(c: u32, p: spec_fn(TaskControl) -> bool) -> spec_fn(TaskControl) -> bool {
    |t: TaskControl| t.class@ == c && p(t)
}

/// The tasks of some classes are those of each.
proof fn lemma_sum_over(
    m: SchedulerModel,
    classes: Set<u32>,
    p: spec_fn(TaskControl) -> bool,
    of: spec_fn(u32) -> int,
)
    requires
        m.tasks.dom().finite(),
        classes.finite(),
        forall|c: u32| #[trigger]
            classes.contains(c) ==> of(c) == matching(m.tasks, within_class(c, p)).len(),
    ensures
        sum_over(classes, of) == matching(m.tasks, among(classes, p)).len(),
    decreases classes.len(),
{
    let all = matching(m.tasks, among(classes, p));
    if classes.len() == 0 {
        assert(classes =~= Set::empty());
        assert(all =~= Set::empty());
    } else {
        let c = classes.choose();
        let rest = classes.remove(c);
        lemma_sum_over(m, rest, p, of);
        let own = matching(m.tasks, within_class(c, p));
        let others = matching(m.tasks, among(rest, p));
        let none = TaskControl::fresh(TaskClass::of(0), 0);
        lemma_matching_insert(m.tasks, 0, none, within_class(c, p));
        lemma_matching_insert(m.tasks, 0, none, among(rest, p));
        assert(own.disjoint(others));
        vstd::set_lib::lemma_set_disjoint_lens(own, others);
        assert(all =~= own + others);
    }
}

/// In every snapshot the queue entries of all classes and the taken slots together
/// are no more than the live tasks of all classes.
pub proof fn law_snapshots_add_up(m: SchedulerModel)
    requires
        m.wf(),
    ensures
        sum_queued(m.stats()) == m.waiting().len(),
        sum_live(m.stats()) == m.tasks.dom().len(),
        sum_queued(m.stats()) + m.active <= sum_live(m.stats()),
{
    let classes = m.classes.dom();
    assert(m.stats().dom() =~= classes);
    let live = |c: u32|
        m.stats()[c].tasks - m.stats()[c].completed - m.stats()[c].cancelled;
    let queued = |c: u32| m.stats()[c].queued as int;
    let any = |t: TaskControl| true;
    assert forall|c: u32| #[trigger] classes.contains(c) implies live(c) == matching(
        m.tasks,
        within_class(c, any),
    ).len() && queued(c) == matching(m.tasks, within_class(c, is_waiting())).len() by {
        assert(m.classes.contains_key(c));
        assert(m.class_ok(c) && m.queue_ok(c));
        assert(m.live_in(c) =~= matching(m.tasks, within_class(c, any)));
        let queue = m.classes[c].queue;
        queue.unique_seq_to_set();
        let waiting = matching(m.tasks, within_class(c, is_waiting()));
        assert forall|id: u64| queue.to_set().contains(id) == waiting.contains(id) by {
            if waiting.contains(id) {
                assert(m.tasks.contains_key(id));
                assert(m.class_of(id).queue.contains(id));
            }
        }
        assert(queue.to_set() =~= waiting);
    }
    lemma_sum_over(m, classes, any, live);
    lemma_sum_over(m, classes, is_waiting(), queued);
    assert(matching(m.tasks, among(classes, any)) =~= m.tasks.dom()) by {
        assert forall|id: u64| m.tasks.dom().contains(id) implies matching(
            m.tasks,
            among(classes, any),
        ).contains(id) by {
            assert(m.tasks.contains_key(id));
        }
    }
    assert(matching(m.tasks, among(classes, is_waiting())) =~= m.waiting()) by {
        assert forall|id: u64| m.waiting().contains(id) implies matching(
            m.tasks,
            among(classes, is_waiting()),
        ).contains(id) by {
            assert(m.tasks.contains_key(id));
        }
    }
    law_each_task_is_in_one_place(m);
}

/// While no task is direct, as when the scheduler was never disabled, every
/// future that returned was admitted before: no class has more completions than
/// admitted polls.
pub proof fn law_completions_are_admitted(m: SchedulerModel, c: u32)
    requires
        m.wf(),
        m.classes.contains_key(c),
        m.direct_before == 0,
    ensures
        m.classes[c].stats.completed + m.holders_in(c).len() <= m.classes[c].stats.polls,
        m.classes[c].stats.completed <= m.classes[c].stats.polls,
{
    assert(m.class_ok(c));
}

/// No task is direct as long as the scheduler is not disabled.
pub proof fn law_only_disabling_makes_direct(m: SchedulerModel, op: Operation)
    requires
        m.wf(),
        m.allows(op),
        !(op is Disable),
    ensures
        m.after(op).direct_before == m.direct_before,
{
    lemma_after(m, op);
    law_dispatch_only_admits(m.before_dispatch(op), moment(op));
    match op {
        Operation::EntitleAll { weights, .. } => {
            lemma_entitle_all_moves_on(m, weights);
        },
        _ => {},
    }
}

/// An executor that comes again to poll a task which waits already is told to
/// wait again: its new waker is noted, the task does not queue a second time,
/// nobody is woken, and no counter changes.
pub proof fn law_polling_again_changes_nothing(m: SchedulerModel, id: u64, now: u64)
    requires
        m.wf(),
        m.phase(id) is Queued,
    ensures
        m.begin_poll(id, now) == (m.register(id), PollDecision::Wait, Seq::<u64>::empty()),
        m.begin_poll(id, now).0.classes == m.classes,
        m.begin_poll(id, now).0.stats() == m.stats(),
        m.begin_poll(id, now).0.active == m.active,
        m.begin_poll(id, now).0.waiting() == m.waiting(),
        m.begin_poll(id, now).0.phase(id) is Queued,
{
    assert(m.register(id).waiting() =~= m.waiting());
}

/// A task counts as admitted once, however often it is admitted: of the futures
/// that were wrapped, those that still await their first admission do not count,
/// and the counter does not exceed the number of admissions.
pub proof fn law_admitted_counts_tasks(m: SchedulerModel, c: u32)
    requires
        m.wf(),
        m.classes.contains_key(c),
    ensures
        m.classes[c].stats.admitted + m.newcomers_in(c).len() <= m.classes[c].stats.tasks,
        m.classes[c].stats.admitted <= m.classes[c].stats.polls,
{
    assert(m.class_ok(c));
}

/// A task whose future has returned, or has been dropped, is finished.
pub proof fn law_ended_tasks_are_finished(
    m: SchedulerModel,
    id: u64,
    exec_time: Option<u64>,
    now: u64,
)
    requires
        m.wf(),
    ensures
        m.cancel(id, now).0.phase(id) is Finished,
        m.allows(Operation::FinishReady { id, exec_time, now }) ==> m.finish_ready(
            id,
            exec_time,
            now,
        ).0.phase(id) is Finished,
{
    let dropped = Operation::Cancel { id, now };
    lemma_after(m, dropped);
    law_dispatch_only_admits(m.before_dispatch(dropped), now);
    let returned = Operation::FinishReady { id, exec_time, now };
    if m.allows(returned) {
        lemma_after(m, returned);
        law_dispatch_only_admits(m.before_dispatch(returned), now);
    }
}

/// What no operation takes back: identifiers are not used twice, classes stay
/// known, tasks keep their class and finish for good, direct tasks stay direct,
/// and the virtual time does not go back.
pub open spec fn moves_on(m: SchedulerModel, n: SchedulerModel) -> bool {
    &&& m.next_task <= n.next_task
    &&& m.direct_before <= n.direct_before
    &&& m.virtual_time <= n.virtual_time
    &&& m.classes.dom().subset_of(n.classes.dom())
    &&& forall|id: u64| #[trigger]
        n.tasks.contains_key(id) && id < m.next_task ==> m.tasks.contains_key(id)
            && n.tasks[id].class@ == m.tasks[id].class@
}

/// Steps that take nothing back take nothing back together.
pub proof fn lemma_moves_on_twice(a: SchedulerModel, b: SchedulerModel, c: SchedulerModel)
    requires
        moves_on(a, b),
        moves_on(b, c),
    ensures
        moves_on(a, c),
        a.keeps_handles(c),
{
}

/// Filling the free slots takes nothing back.
pub proof fn lemma_dispatch_moves_on(m: SchedulerModel, now: u64)
    requires
        m.consistent(),
    ensures
        moves_on(m, m.dispatch(now).0),
{
    law_dispatch_only_admits(m, now);
}

/// New weights change classes alone.
pub proof fn lemma_entitle_all_moves_on(m: SchedulerModel, weights: Seq<(TaskClass, u32)>)
    ensures
        moves_on(m, m.entitle_all(weights)),
        m.entitle_all(weights) == (SchedulerModel {
            classes: m.entitle_all(weights).classes,
            ..m
        }),
    decreases weights.len(),
{
    if weights.len() > 0 {
        lemma_entitle_all_moves_on(m, weights.drop_last());
    }
}

/// What happens before the free slots are filled takes nothing back.
proof fn lemma_before_dispatch_moves_on(m: SchedulerModel, op: Operation)
    requires
        m.wf(),
        m.allows(op),
    ensures
        moves_on(m, m.before_dispatch(op)),
{
    let before = m.before_dispatch(op);
    match op {
        Operation::Schedule { class, now } => {
            assert(moves_on(m, before));
        },
        Operation::BeginPoll { id, now } => {
            assert(moves_on(m, before));
        },
        Operation::Notify { id, c, now } => {
            let r = m.put_class(c, m.classes[c].count_wake());
            assert(moves_on(m, r));
            assert(moves_on(m, before));
        },
        Operation::FinishPending { id, exec_time, now } => {
            assert(moves_on(m, m.release(id, exec_time)));
            assert(moves_on(m, before));
        },
        Operation::FinishReady { id, exec_time, now } => {
            assert(moves_on(m, m.release(id, exec_time)));
            assert(moves_on(m, before));
        },
        Operation::Cancel { id, now } => {
            if m.tasks.contains_key(id) {
                assert(moves_on(m, m.withdraw(id)));
                assert(moves_on(m, m.free_slot(id)));
            }
            assert(moves_on(m, before));
        },
        Operation::Entitle { c, entitlement, now } => {
            assert(moves_on(m, before));
        },
        Operation::EntitleAll { weights, .. } => {
            lemma_entitle_all_moves_on(m, weights);
        },
        Operation::Limit { max_concurrent_polls, now } => {
            assert(moves_on(m, before));
        },
        Operation::Enable => {
            assert(moves_on(m, before));
        },
        Operation::Disable => {
            assert(before.classes.dom() =~= m.classes.dom());
            assert(moves_on(m, before));
        },
    }
}

/// Time moves on for a scheduler: identifiers are not used twice, classes stay
/// known, tasks keep their class and finish for good, direct tasks stay direct,
/// and the virtual time does not go back.
pub proof fn law_moves_on(m: SchedulerModel, op: Operation)
    requires
        m.wf(),
        m.allows(op),
    ensures
        moves_on(m, m.after(op)),
{
    lemma_after(m, op);
    let before = m.before_dispatch(op);
    let n = m.after(op);
    law_dispatch_only_admits(before, moment(op));
    lemma_before_dispatch_moves_on(m, op);
    assert forall|id: u64| #[trigger]
        n.tasks.contains_key(id) && id < m.next_task implies m.tasks.contains_key(id)
        && n.tasks[id].class@ == m.tasks[id].class@ by {
        assert(before.tasks.contains_key(id));
    }
}

/// A handle stays valid, whatever happens to other tasks and to its own.
pub proof fn law_handles_stay_valid(m: SchedulerModel, op: Operation, handle: HandleModel)
    requires
        m.wf(),
        m.allows(op),
        m.issued(handle),
    ensures
        m.after(op).issued(handle),
{
    law_moves_on(m, op);
}

/// A poll that is under way can be finished, whatever happens to other tasks, and
/// to its own short of its end.
pub proof fn law_poll_stays_under_way(m: SchedulerModel, op: Operation, id: u64)
    requires
        m.wf(),
        m.allows(op),
        m.tasks.contains_key(id),
        m.tasks[id].may_finish(m.is_direct(id)),
        match op {
            Operation::FinishPending { id: other, .. } => other != id,
            Operation::FinishReady { id: other, .. } => other != id,
            Operation::Cancel { id: other, .. } => other != id,
            _ => true,
        },
    ensures
        m.after(op).tasks.contains_key(id),
        m.after(op).tasks[id].may_finish(m.after(op).is_direct(id)),
{
    lemma_after(m, op);
    law_moves_on(m, op);
    let before = m.before_dispatch(op);
    law_dispatch_only_admits(before, moment(op));
    match op {
        Operation::EntitleAll { weights, .. } => {
            lemma_entitle_all_moves_on(m, weights);
        },
        _ => {},
    }
    assert(before.tasks.contains_key(id));
}

/// A task that runs directly does so for the rest of its life, also when the
/// scheduler is enabled again.
pub proof fn law_direct_tasks_stay_direct(m: SchedulerModel, op: Operation, id: u64)
    requires
        m.wf(),
        m.allows(op),
        m.is_direct(id),
    ensures
        m.after(op).is_direct(id),
        !(m.after(op).phase(id) is Queued),
{
    law_moves_on(m, op);
    law_order_is_kept(m, op);
}

/// The number of slots stays unless it is set.
pub proof fn lemma_limit_stays(m: SchedulerModel, op: Operation)
    requires
        m.wf(),
        m.allows(op),
    ensures
        m.before_dispatch(op).max_concurrent_polls == m.after(op).max_concurrent_polls,
        m.after(op).max_concurrent_polls == (match op {
            Operation::Limit { max_concurrent_polls, .. } => max_concurrent_polls,
            _ => m.max_concurrent_polls,
        }),
{
    lemma_after(m, op);
    law_dispatch_only_admits(m.before_dispatch(op), moment(op));
    match op {
        Operation::EntitleAll { weights, .. } => {
            lemma_entitle_all_moves_on(m, weights);
        },
        _ => {},
    }
}

/// No operation takes more slots than the limit allows: the number of admitted
/// polls exceeds the limit only after the limit has been lowered, and then it
/// does not grow.
pub proof fn law_limit_is_respected(m: SchedulerModel, op: Operation)
    requires
        m.wf(),
        m.allows(op),
    ensures
        m.after(op).active <= m.after(op).max_concurrent_polls || m.after(op).active <= m.active,
{
    lemma_after(m, op);
    law_dispatch_only_admits(m.before_dispatch(op), moment(op));
    match op {
        Operation::EntitleAll { weights, .. } => {
            lemma_entitle_all_moves_on(m, weights);
        },
        Operation::FinishPending { id, exec_time, .. } => {
            if m.phase(id).holds_slot() {
                lemma_free_slot(m, id);
            }
        },
        Operation::FinishReady { id, exec_time, .. } => {
            if m.phase(id).holds_slot() {
                lemma_free_slot(m, id);
            }
        },
        Operation::Cancel { id, .. } => {
            if m.phase(id).holds_slot() {
                lemma_free_slot(m, id);
            }
        },
        _ => {},
    }
}

/// No slot is left free while a task waits for one.
pub proof fn law_work_conserving(m: SchedulerModel)
    requires
        m.wf(),
    ensures
        m.active < m.max_concurrent_polls ==> m.waiting() == Set::<u64>::empty(),
{
    if m.active < m.max_concurrent_polls {
        assert forall|id: u64| !m.waiting().contains(id) by {
            if m.waiting().contains(id) {
                assert(m.tasks.contains_key(id));
                assert(m.backlogged(m.tasks[id].class@));
            }
        }
        assert(m.waiting() =~= Set::empty());
    }
}

/// Every future that was wrapped is either live, or has been counted as
/// completed or as cancelled, but not both.
pub proof fn law_tasks_are_accounted_for(m: SchedulerModel, c: u32)
    requires
        m.wf(),
        m.classes.contains_key(c),
    ensures
        m.classes[c].stats.tasks == m.classes[c].stats.completed + m.classes[c].stats.cancelled
            + m.live_in(c).len(),
        m.active == m.holders().len(),
        m.classes[c].stats.queued == m.classes[c].queue.len(),
{
    assert(m.class_ok(c));
}

/// Dropping a future that waits frees no slot and admits nothing: the slots
/// belong to the tasks that hold them.
pub proof fn law_cancelling_waiting_work_frees_no_slot(m: SchedulerModel, id: u64, now: u64)
    requires
        m.wf(),
        m.phase(id) is Queued,
    ensures
        m.cancel(id, now) == (m.withdraw(id).abandon(id), Seq::<u64>::empty()),
        m.cancel(id, now).0.active == m.active,
        m.cancel(id, now).0.holders() == m.holders(),
{
    lemma_withdraw(m, id);
    lemma_go(m.withdraw(id), id);
    let n = m.withdraw(id).abandon(id);
    assert(m.backlogged(m.tasks[id].class@)) by {
        assert(m.tasks.contains_key(id));
    }
    assert(n.holders() =~= m.holders());
}

/// Dropping a future that holds a slot frees that slot, and a waiting task gets
/// it.
pub proof fn law_cancelling_admitted_work_frees_its_slot(m: SchedulerModel, id: u64, now: u64)
    requires
        m.wf(),
        m.phase(id).holds_slot(),
        m.active <= m.max_concurrent_polls,
        forall|x: u64| #[trigger] m.waiting().contains(x) ==> m.tasks[x].has_waker,
    ensures
        m.waiting().len() == 0 ==> m.cancel(id, now).0.active == m.active - 1,
        m.waiting().len() > 0 ==> m.cancel(id, now).0.active == m.active,
{
    lemma_free_slot(m, id);
    lemma_go(m.free_slot(id), id);
    let n = m.free_slot(id).abandon(id);
    assert(n.waiting() =~= m.waiting());
    lemma_matching_insert(n.tasks, 0, TaskControl::fresh(TaskClass::of(0), 0), is_waiting());
    if m.waiting().len() == 0 {
        assert forall|c: u32| !n.backlogged(c) by {
            if n.backlogged(c) {
                assert(n.queue_ok(c));
                assert(n.waiting().contains(n.classes[c].queue[0]));
            }
        }
        lemma_dispatch_again(n, now);
    } else {
        let x = m.waiting().choose();
        assert(m.waiting().contains(x));
        assert(m.active == m.max_concurrent_polls) by {
            law_work_conserving(m);
        }
        assert(n.tasks.contains_key(x));
        assert(n.backlogged(n.tasks[x].class@));
        lemma_some_class_is_first(n);
        let c = n.next_class()->0;
        lemma_next_class(n, c);
        assert(n.queue_ok(c));
        assert(n.waiting().contains(n.classes[c].queue[0]));
        let served = n.serve(c, now);
        lemma_serve(n, c, now);
        assert(served.active == m.active);
        assert(served.dispatch(now) == (served, Seq::<u64>::empty()));
    }
}

/// Dropping a future charges nobody for it.
pub proof fn law_cancelled_work_is_not_charged(m: SchedulerModel, id: u64, now: u64, c: u32)
    requires
        m.wf(),
        m.classes.contains_key(c),
    ensures
        m.cancel(id, now).0.classes[c].pass == m.classes[c].pass,
        m.cancel(id, now).0.classes[c].stats.total_exec_time == m.classes[c].stats.total_exec_time,
{
    let op = Operation::Cancel { id, now };
    lemma_after(m, op);
    law_dispatch_only_admits(m.before_dispatch(op), now);
    assert(m.before_dispatch(op).classes.contains_key(c));
}

/// A direct task that holds no slot takes none and frees none, whether it is
/// polled, woken, completed or dropped, and even if its future panics: other
/// tasks, the queues, the passes and the slots stay as they are.
pub proof fn law_direct_tasks_leave_the_slots_alone(
    m: SchedulerModel,
    id: u64,
    exec_time: Option<u64>,
    now: u64,
)
    requires
        m.wf(),
        m.phase(id) is Idle,
        m.is_direct(id),
    ensures
        m.begin_poll(id, now) == (m.register(id), PollDecision::Direct, Seq::<u64>::empty()),
        m.notify(id, m.tasks[id].class@, now) == (
            m.put_class(m.tasks[id].class@, m.class_of(id).count_wake()),
            m.own_waker(id),
        ),
        m.finish_pending(id, exec_time, now) == (m, Seq::<u64>::empty()),
        m.finish_ready(id, exec_time, now) == (m.complete(id), Seq::<u64>::empty()),
        m.cancel(id, now) == (m.abandon(id), Seq::<u64>::empty()),
{
    lemma_go(m, id);
    lemma_dispatch_again(m.abandon(id), now);
}

/// Disabling a scheduler leaves nobody waiting, turns every live task into a
/// direct one, hands back exactly the tasks that waited, and takes no slot from
/// the tasks that hold one.
pub proof fn law_disabling_drains(m: SchedulerModel)
    requires
        m.wf(),
    ensures
        !m.disable().enabled,
        m.disable().waiting() == Set::<u64>::empty(),
        m.disable().holders() == m.holders(),
        m.disable().active == m.active,
        forall|id: u64| #[trigger]
            m.tasks.contains_key(id) ==> m.disable().is_direct(id)
                && m.disable().tasks.contains_key(id),
        forall|id: u64| #[trigger]
            m.drained().contains(id) <==> m.phase(id) is Queued && m.tasks[id].has_waker,
{
    assert(m.disable().waiting() =~= Set::empty());
    assert(m.disable().holders() =~= m.holders());
}

/// A disabled scheduler takes no notice of the futures that are wrapped, not even
/// of their class.
pub proof fn law_disabled_scheduler_is_bypassed(m: SchedulerModel, class: TaskClass, now: u64)
    requires
        !m.enabled,
    ensures
        m.schedule(class, now) == m,
{
}

/// A task that was wrapped while the scheduler was enabled again is scheduled,
/// however often the scheduler was disabled before.
pub proof fn law_enabled_scheduler_manages_new_tasks(m: SchedulerModel, class: TaskClass, now: u64)
    requires
        m.wf(),
        m.enabled,
        m.next_task < u64::MAX,
    ensures
        !m.schedule(class, now).is_direct(m.next_task),
        m.schedule(class, now).phase(m.next_task) is Idle,
        m.schedule(class, now).classes.contains_key(class@),
{
}

/// While no slot is free, a wake does not reach the executor: the task joins its
/// queue and nobody is woken.
pub proof fn law_wakes_wait_for_admission(m: SchedulerModel, id: u64, now: u64)
    requires
        m.wf(),
        m.phase(id) is Idle,
        !m.is_direct(id),
        m.can_enqueue(id),
        m.active >= m.max_concurrent_polls,
    ensures
        m.notify(id, m.tasks[id].class@, now).0.phase(id) is Queued,
        m.notify(id, m.tasks[id].class@, now).1 == Seq::<u64>::empty(),
{
    let c = m.tasks[id].class@;
    assert(m.tasks.contains_key(id));
    lemma_count_wake(m, c);
    let counted = m.put_class(c, m.classes[c].count_wake());
    lemma_enqueue(counted, id, now);
}

/// Wakes of a task that already waits, has been admitted, was woken during its
/// poll or has finished are counted and change nothing else.
pub proof fn law_repeated_wakes_are_absorbed(m: SchedulerModel, id: u64, c: u32, now: u64)
    requires
        m.classes.contains_key(c),
        !(m.phase(id) is Idle),
        !(m.phase(id) is Polling),
    ensures
        m.notify(id, c, now) == (
            m.put_class(c, m.classes[c].count_wake()),
            Seq::<u64>::empty(),
        ),
{
}

/// A task that is woken during its poll is not forgotten when the poll ends: it
/// waits again, or has been admitted again.
pub proof fn law_wake_during_poll_is_kept(
    m: SchedulerModel,
    id: u64,
    exec_time: Option<u64>,
    now: u64,
)
    requires
        m.wf(),
        m.phase(id) is PollingNotified,
        m.tasks[id].has_waker,
        !m.is_direct(id),
        m.can_enqueue(id),
    ensures
        m.finish_pending(id, exec_time, now).0.phase(id) is Queued || (m.finish_pending(
            id,
            exec_time,
            now,
        ).0.phase(id) is Admitted && m.finish_pending(id, exec_time, now).1.contains(id)),
{
    let op = Operation::FinishPending { id, exec_time, now };
    lemma_after(m, op);
    let before = m.before_dispatch(op);
    law_dispatch_only_admits(before, now);
    law_woken_are_admitted(before, now);
    assert(before.tasks.contains_key(id));
}

} // verus!
