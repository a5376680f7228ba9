//! Every step of a scheduler keeps it consistent.

use vstd::prelude::*;

use crate::class::{Entitlement, TaskClass};
use crate::control::{TaskControl, TaskPhase};
use crate::model::{
    admission_wait, is_holder, is_holder_in, is_in, is_newcomer_in, is_waiting,
    lemma_matching_insert, lemma_matching_remove, lemma_next_class, lemma_serve_shrinks, without,
    SchedulerModel,
};
use crate::stats::ClassStats;

verus! {

/// How the sets of tasks change when one live task changes but stays in its
/// class.
pub proof fn lemma_put_task(m: SchedulerModel, id: u64, task: TaskControl)
    requires
        m.tasks.dom().finite(),
        m.tasks.contains_key(id),
        task.class@ == m.tasks[id].class@,
    ensures
        m.put_task(id, task).tasks.dom() == m.tasks.dom(),
        m.put_task(id, task).holders().len() == m.holders().len() + (
        if task.phase.holds_slot() {
            1int
        } else {
            0
        }) - (if m.tasks[id].phase.holds_slot() {
            1int
        } else {
            0
        }),
        forall|c: u32| #[trigger] m.put_task(id, task).live_in(c).len() == m.live_in(c).len(),
        forall|c: u32| #[trigger]
            m.put_task(id, task).newcomers_in(c).len() == m.newcomers_in(c).len() + (if c
                == task.class@ && !task.admitted {
                1int
            } else {
                0
            }) - (if c == task.class@ && !m.tasks[id].admitted {
                1int
            } else {
                0
            }),
        forall|c: u32| #[trigger]
            m.put_task(id, task).holders_in(c).len() == m.holders_in(c).len() + (if c
                == task.class@ && task.phase.holds_slot() {
                1int
            } else {
                0
            }) - (if c == task.class@ && m.tasks[id].phase.holds_slot() {
                1int
            } else {
                0
            }),
{
    assert(m.put_task(id, task).tasks.dom() =~= m.tasks.dom());
    lemma_matching_insert(m.tasks, id, task, is_holder());
    assert forall|c: u32| #[trigger] m.put_task(id, task).live_in(c).len() == m.live_in(
        c,
    ).len() by {
        lemma_matching_insert(m.tasks, id, task, is_in(c));
    }
    assert forall|c: u32| #[trigger]
        m.put_task(id, task).newcomers_in(c).len() == m.newcomers_in(c).len() + (if c
            == task.class@ && !task.admitted {
            1int
        } else {
            0
        }) - (if c == task.class@ && !m.tasks[id].admitted {
            1int
        } else {
            0
        }) by {
        lemma_matching_insert(m.tasks, id, task, is_newcomer_in(c));
    }
    assert forall|c: u32| #[trigger]
        m.put_task(id, task).holders_in(c).len() == m.holders_in(c).len() + (if c == task.class@
            && task.phase.holds_slot() {
            1int
        } else {
            0
        }) - (if c == task.class@ && m.tasks[id].phase.holds_slot() {
            1int
        } else {
            0
        }) by {
        lemma_matching_insert(m.tasks, id, task, is_holder_in(c));
    }
}

/// How the sets of tasks change when a live task goes.
pub proof fn lemma_drop_task(m: SchedulerModel, id: u64)
    requires
        m.tasks.dom().finite(),
        m.tasks.contains_key(id),
    ensures
        m.drop_task(id).holders().len() == m.holders().len() - (
        if m.tasks[id].phase.holds_slot() {
            1int
        } else {
            0
        }),
        forall|c: u32| #[trigger]
            m.drop_task(id).live_in(c).len() == m.live_in(c).len() - (if c
                == m.tasks[id].class@ {
                1int
            } else {
                0
            }),
        forall|c: u32| #[trigger]
            m.drop_task(id).newcomers_in(c).len() <= m.newcomers_in(c).len(),
        forall|c: u32| #[trigger]
            m.drop_task(id).holders_in(c).len() == m.holders_in(c).len() - (if c
                == m.tasks[id].class@ && m.tasks[id].phase.holds_slot() {
                1int
            } else {
                0
            }),
{
    lemma_matching_remove(m.tasks, id, is_holder());
    assert forall|c: u32| #[trigger]
        m.drop_task(id).live_in(c).len() == m.live_in(c).len() - (if c == m.tasks[id].class@ {
            1int
        } else {
            0
        }) by {
        lemma_matching_remove(m.tasks, id, is_in(c));
    }
    assert forall|c: u32| #[trigger]
        m.drop_task(id).newcomers_in(c).len() <= m.newcomers_in(c).len() by {
        lemma_matching_remove(m.tasks, id, is_newcomer_in(c));
    }
    assert forall|c: u32| #[trigger]
        m.drop_task(id).holders_in(c).len() == m.holders_in(c).len() - (if c
            == m.tasks[id].class@ && m.tasks[id].phase.holds_slot() {
            1int
        } else {
            0
        }) by {
        lemma_matching_remove(m.tasks, id, is_holder_in(c));
    }
}

/// A live task can change between phases that are neither waiting nor finished,
/// as long as it keeps its class and its slot, or its lack of one.
pub proof fn lemma_touch_task(m: SchedulerModel, id: u64, task: TaskControl)
    requires
        m.consistent(),
        m.tasks.contains_key(id),
        task.class@ == m.tasks[id].class@,
        task.phase.holds_slot() == m.tasks[id].phase.holds_slot(),
        task.phase is Queued == m.tasks[id].phase is Queued,
        !(task.phase is Finished),
        task.admitted == m.tasks[id].admitted,
    ensures
        m.put_task(id, task).consistent(),
        m.work_conserving() ==> m.put_task(id, task).work_conserving(),
{
    let n = m.put_task(id, task);
    lemma_put_task(m, id, task);
    assert forall|c: u32| #[trigger] n.classes.contains_key(c) implies n.queue_ok(c)
        && n.class_ok(c) by {
        assert(m.queue_ok(c) && m.class_ok(c));
        assert(n.live_in(c).len() == m.live_in(c).len());
        assert(n.holders_in(c).len() == m.holders_in(c).len());
        assert(n.newcomers_in(c).len() == m.newcomers_in(c).len());
    }
    assert forall|d: u32| m.backlogged(d) == n.backlogged(d) by {}
}

/// An idle task that is not direct can enter its queue.
pub proof fn lemma_enqueue(m: SchedulerModel, id: u64, now: u64)
    requires
        m.consistent(),
        m.phase(id) is Idle,
        !m.is_direct(id),
        m.has_room(m.tasks[id].class@),
        m.class_of(id).queue.len() < usize::MAX,
    ensures
        m.enqueue(id, now).consistent(),
{
    let task = TaskControl { phase: TaskPhase::Queued, queued_at: Some(now), ..m.tasks[id] };
    let own = task.class@;
    let n = m.enqueue(id, now);
    lemma_put_task(m, id, task);
    assert(n.tasks == m.put_task(id, task).tasks);
    assert(n.holders() == m.put_task(id, task).holders());
    assert(m.queue_ok(own) && m.class_ok(own));
    let queue = m.classes[own].queue;
    assert(n.classes[own].queue == queue.push(id));
    assert(!queue.contains(id));
    assert forall|c: u32| #[trigger] n.classes.contains_key(c) implies n.queue_ok(c)
        && n.class_ok(c) by {
        assert(m.queue_ok(c) && m.class_ok(c));
        assert(n.live_in(c) == m.put_task(id, task).live_in(c));
        assert(n.holders_in(c) == m.put_task(id, task).holders_in(c));
        assert(n.newcomers_in(c) == m.put_task(id, task).newcomers_in(c));
        if c != own {
            assert(!m.classes[c].queue.contains(id));
        }
    }
    assert forall|other: u64| #[trigger] n.tasks.contains_key(other) implies {
        &&& n.classes.contains_key(n.tasks[other].class@)
        &&& n.tasks[other].phase is Queued ==> n.class_of(other).queue.contains(other)
    } by {
        assert(m.tasks.contains_key(other));
        if other == id {
            assert(n.classes[own].queue[queue.len() as int] == id);
        } else if n.tasks[other].class@ == own && n.tasks[other].phase is Queued {
            let i = queue.index_of(other);
            assert(n.classes[own].queue[i] == other);
        }
    }
}

/// The first task of a backlogged class can be served while a slot is free.
pub proof fn lemma_serve(m: SchedulerModel, c: u32, now: u64)
    requires
        m.consistent(),
        m.backlogged(c),
        m.active < m.max_concurrent_polls,
    ensures
        m.serve(c, now).consistent(),
{
    let class = m.classes[c];
    let queue = class.queue;
    let id = queue[0];
    assert(m.queue_ok(c) && m.class_ok(c));
    let old_task = m.tasks[id];
    let task = if old_task.has_waker {
        TaskControl { phase: TaskPhase::Admitted, queued_at: None, admitted: true, ..old_task }
    } else {
        TaskControl { phase: TaskPhase::Idle, ..old_task }
    };
    let n = m.serve(c, now);
    lemma_put_task(m, id, task);
    assert(n.tasks == m.put_task(id, task).tasks);
    assert(n.holders() == m.put_task(id, task).holders());
    assert(n.classes[c].queue == queue.skip(1));
    assert forall|d: u32| #[trigger] n.classes.contains_key(d) implies n.queue_ok(d)
        && n.class_ok(d) by {
        assert(m.queue_ok(d) && m.class_ok(d));
        assert(n.live_in(d) == m.put_task(id, task).live_in(d));
        assert(n.holders_in(d) == m.put_task(id, task).holders_in(d));
        assert(n.newcomers_in(d) == m.put_task(id, task).newcomers_in(d));
        if d == c {
            assert forall|i: int| 0 <= i < n.classes[c].queue.len() implies {
                &&& n.tasks.contains_key(#[trigger] n.classes[c].queue[i])
                &&& n.tasks[n.classes[c].queue[i]].phase is Queued
                &&& n.tasks[n.classes[c].queue[i]].class@ == c
            } by {
                assert(n.classes[c].queue[i] == queue[i + 1]);
                assert(queue[i + 1] != queue[0]);
            }
            assert(admission_wait(old_task, now) <= u64::MAX);
        } else {
            assert(!m.classes[d].queue.contains(id));
        }
    }
    assert forall|other: u64| #[trigger] n.tasks.contains_key(other) implies {
        &&& n.classes.contains_key(n.tasks[other].class@)
        &&& n.tasks[other].phase is Queued ==> n.class_of(other).queue.contains(other)
    } by {
        assert(m.tasks.contains_key(other));
        if other != id && n.tasks[other].class@ == c && n.tasks[other].phase is Queued {
            let i = queue.index_of(other);
            assert(queue[i] == other);
            assert(n.classes[c].queue[i - 1] == other);
        }
    }
}

/// What filling the free slots does.
pub proof fn lemma_dispatch(m: SchedulerModel, now: u64)
    requires
        m.consistent(),
    ensures
        m.dispatch(now).0.consistent(),
        m.dispatch(now).0.work_conserving(),
    decreases m.waiting().len(),
{
    if m.active < m.max_concurrent_polls {
        match m.next_class() {
            Some(c) => {
                lemma_next_class(m, c);
                lemma_serve(m, c, now);
                lemma_serve_shrinks(m, c, now);
                lemma_dispatch(m.serve(c, now), now);
            },
            None => {
                lemma_some_class_is_first(m);
            },
        }
    }
}

/// As long as any class is backlogged, one of them is first.
pub proof fn lemma_some_class_is_first(m: SchedulerModel)
    requires
        m.classes.dom().finite(),
    ensures
        (exists|c: u32| m.backlogged(c)) ==> m.next_class() is Some,
{
    let all = m.classes.dom().filter(|c: u32| m.backlogged(c));
    if exists|c: u32| m.backlogged(c) {
        let c = choose|c: u32| m.backlogged(c);
        assert(all.contains(c));
        let first = lemma_first_of(m, all);
        assert forall|d: u32| #[trigger] m.backlogged(d) implies m.classes[first].pass
            < m.classes[d].pass || (m.classes[first].pass == m.classes[d].pass && first <= d) by {
            assert(all.contains(d));
        }
        lemma_next_class(m, first);
    }
}

/// A finite, inhabited set of classes has a first member.
proof fn lemma_first_of(m: SchedulerModel, set: Set<u32>) -> (first: u32)
    requires
        set.finite(),
        set.len() > 0,
    ensures
        set.contains(first),
        forall|d: u32| #[trigger]
            set.contains(d) ==> m.classes[first].pass < m.classes[d].pass || (
            m.classes[first].pass == m.classes[d].pass && first <= d),
    decreases set.len(),
{
    let c = set.choose();
    let rest = set.remove(c);
    if rest.len() == 0 {
        assert forall|d: u32| #[trigger] set.contains(d) implies d == c by {
            if d != c {
                assert(rest.contains(d));
            }
        }
        c
    } else {
        let f = lemma_first_of(m, rest);
        assert(rest.contains(f));
        let first = if m.classes[c].pass < m.classes[f].pass || (m.classes[c].pass
            == m.classes[f].pass && c <= f) {
            c
        } else {
            f
        };
        assert forall|d: u32| #[trigger] set.contains(d) implies m.classes[first].pass
            < m.classes[d].pass || (m.classes[first].pass == m.classes[d].pass && first <= d) by {
            if d != c {
                assert(rest.contains(d));
            }
        }
        first
    }
}

/// A task that holds a slot can give it back.
pub proof fn lemma_free_slot(m: SchedulerModel, id: u64)
    requires
        m.consistent(),
        m.phase(id).holds_slot(),
    ensures
        m.free_slot(id).consistent(),
        m.active > 0,
{
    let task = TaskControl { phase: TaskPhase::Idle, ..m.tasks[id] };
    let n = m.free_slot(id);
    lemma_put_task(m, id, task);
    assert(n.holders() == m.put_task(id, task).holders());
    assert forall|c: u32| #[trigger] n.classes.contains_key(c) implies n.queue_ok(c)
        && n.class_ok(c) by {
        assert(m.queue_ok(c) && m.class_ok(c));
        assert(n.live_in(c) == m.put_task(id, task).live_in(c));
        assert(n.holders_in(c) == m.put_task(id, task).holders_in(c));
        assert(n.newcomers_in(c) == m.put_task(id, task).newcomers_in(c));
    }
}

/// An admitted poll can be charged when its slot is given back.
pub proof fn lemma_release(m: SchedulerModel, id: u64, exec_time: Option<u64>)
    requires
        m.consistent(),
        m.phase(id).holds_slot(),
    ensures
        m.release(id, exec_time).consistent(),
        m.release(id, exec_time).can_complete(m.tasks[id].class@),
        m.class_of(id).stats.total_exec_time + u64::MAX <= u128::MAX,
        m.active > 0,
{
    let task = TaskControl { phase: TaskPhase::Idle, ..m.tasks[id] };
    let own = task.class@;
    let n = m.release(id, exec_time);
    lemma_free_slot(m, id);
    lemma_put_task(m, id, task);
    assert(n.tasks == m.put_task(id, task).tasks);
    assert(n.holders() == m.put_task(id, task).holders());
    assert(m.class_ok(own));
    lemma_matching_insert(m.tasks, id, m.tasks[id], is_holder_in(own));
    assert(m.holders_in(own).contains(id));
    assert(m.holders_in(own).len() >= 1);
    assert(n.holders_in(own) == m.put_task(id, task).holders_in(own));
    assert forall|c: u32| #[trigger] n.classes.contains_key(c) implies n.queue_ok(c)
        && n.class_ok(c) by {
        assert(m.queue_ok(c) && m.class_ok(c));
        assert(n.live_in(c) == m.put_task(id, task).live_in(c));
        assert(n.holders_in(c) == m.put_task(id, task).holders_in(c));
        assert(n.newcomers_in(c) == m.put_task(id, task).newcomers_in(c));
    }
}

/// Taking one task out of a queue leaves the others in their order.
pub proof fn lemma_without(queue: Seq<u64>, id: u64)
    requires
        queue.no_duplicates(),
    ensures
        without(queue, id).no_duplicates(),
        forall|x: u64| #[trigger]
            without(queue, id).contains(x) <==> queue.contains(x) && x != id,
        queue.contains(id) ==> without(queue, id).len() == queue.len() - 1,
        !queue.contains(id) ==> without(queue, id) == queue,
    decreases queue.len(),
{
    reveal(Seq::filter);
    let kept = without(queue, id);
    if queue.len() > 0 {
        let rest = queue.drop_last();
        let last = queue.last();
        assert forall|x: u64| queue.contains(x) <==> rest.contains(x) || x == last by {
            if queue.contains(x) {
                let i = queue.index_of(x);
                if i < rest.len() {
                    assert(rest[i] == x);
                }
            }
            if rest.contains(x) {
                let i = rest.index_of(x);
                assert(queue[i] == x);
            }
            assert(queue[queue.len() - 1] == last);
        }
        assert(!rest.contains(last));
        lemma_without(rest, id);
        let kept_rest = without(rest, id);
        if last != id {
            assert(kept == kept_rest.push(last));
            assert forall|x: u64| #[trigger] kept.contains(x) <==> queue.contains(x) && x
                != id by {
                if kept.contains(x) {
                    let i = kept.index_of(x);
                    if i < kept_rest.len() {
                        assert(kept_rest[i] == x);
                        assert(kept_rest.contains(x));
                    }
                }
                if kept_rest.contains(x) {
                    let i = kept_rest.index_of(x);
                    assert(kept[i] == x);
                }
                assert(kept[kept_rest.len() as int] == last);
            }
            assert(!kept_rest.contains(last));
            if !queue.contains(id) {
                assert(kept =~= queue);
            }
        } else {
            assert(kept == kept_rest);
            assert(queue.contains(id));
        }
    }
}

/// A waiting task can leave its queue.
pub proof fn lemma_withdraw(m: SchedulerModel, id: u64)
    requires
        m.consistent(),
        m.phase(id) is Queued,
    ensures
        m.withdraw(id).consistent(),
        m.class_of(id).queue.contains(id),
        m.class_of(id).stats.queued > 0,
{
    let task = TaskControl { phase: TaskPhase::Idle, ..m.tasks[id] };
    let own = task.class@;
    let queue = m.classes[own].queue;
    let n = m.withdraw(id);
    lemma_put_task(m, id, task);
    assert(n.tasks == m.put_task(id, task).tasks);
    assert(n.holders() == m.put_task(id, task).holders());
    assert(m.queue_ok(own) && m.class_ok(own));
    lemma_without(queue, id);
    assert forall|c: u32| #[trigger] n.classes.contains_key(c) implies n.queue_ok(c)
        && n.class_ok(c) by {
        assert(m.queue_ok(c) && m.class_ok(c));
        assert(n.live_in(c) == m.put_task(id, task).live_in(c));
        assert(n.holders_in(c) == m.put_task(id, task).holders_in(c));
        assert(n.newcomers_in(c) == m.put_task(id, task).newcomers_in(c));
        if c == own {
            let kept = n.classes[c].queue;
            assert forall|i: int| 0 <= i < kept.len() implies {
                &&& n.tasks.contains_key(#[trigger] kept[i])
                &&& n.tasks[kept[i]].phase is Queued
                &&& n.tasks[kept[i]].class@ == c
            } by {
                assert(kept.contains(kept[i]));
                let j = queue.index_of(kept[i]);
                assert(queue[j] == kept[i]);
            }
        } else {
            assert(!m.classes[c].queue.contains(id));
        }
    }
    assert forall|other: u64| #[trigger] n.tasks.contains_key(other) implies {
        &&& n.classes.contains_key(n.tasks[other].class@)
        &&& n.tasks[other].phase is Queued ==> n.class_of(other).queue.contains(other)
    } by {
        assert(m.tasks.contains_key(other));
    }
}

/// An idle task can go, whether it is counted as completed or as cancelled.
pub proof fn lemma_go(m: SchedulerModel, id: u64)
    requires
        m.consistent(),
        m.phase(id) is Idle,
    ensures
        m.can_complete(m.tasks[id].class@) ==> m.complete(id).consistent(),
        m.work_conserving() ==> m.complete(id).work_conserving(),
        m.abandon(id).consistent(),
        m.work_conserving() ==> m.abandon(id).work_conserving(),
        m.class_of(id).stats.completed + m.class_of(id).stats.cancelled < u64::MAX,
{
    let own = m.tasks[id].class@;
    lemma_drop_task(m, id);
    let dropped = m.drop_task(id);
    assert(m.class_ok(own));
    lemma_matching_remove(m.tasks, id, is_in(own));
    assert(m.live_in(own).contains(id));
    assert(m.live_in(own).len() >= 1);
    let done = m.complete(id);
    let gone = m.abandon(id);
    assert(done.holders() == dropped.holders());
    assert(gone.holders() == dropped.holders());
    assert(dropped.tasks.dom() =~= m.tasks.dom().remove(id));
    assert forall|c: u32| #[trigger] m.classes.contains_key(c) implies {
        &&& done.queue_ok(c) && (m.can_complete(own) ==> done.class_ok(c))
        &&& gone.queue_ok(c) && gone.class_ok(c)
    } by {
        assert(m.queue_ok(c) && m.class_ok(c));
        assert(done.live_in(c) == dropped.live_in(c));
        assert(done.holders_in(c) == dropped.holders_in(c));
        assert(done.newcomers_in(c) == dropped.newcomers_in(c));
        assert(gone.live_in(c) == dropped.live_in(c));
        assert(gone.holders_in(c) == dropped.holders_in(c));
        assert(gone.newcomers_in(c) == dropped.newcomers_in(c));
        assert(!m.classes[c].queue.contains(id));
    }
    assert forall|c: u32| m.backlogged(c) == done.backlogged(c) by {}
    assert forall|c: u32| m.backlogged(c) == gone.backlogged(c) by {}
}

/// A class that has no tasks yet can be added, and any class can be entitled
/// anew.
pub proof fn lemma_entitle(m: SchedulerModel, c: u32, entitlement: Entitlement)
    requires
        m.consistent(),
        entitlement.valid(),
    ensures
        m.entitle(c, entitlement).consistent(),
{
    let n = m.entitle(c, entitlement);
    assert(n.holders() == m.holders());
    if !m.classes.contains_key(c) {
        lemma_unknown_class(m, c);
    }
    assert forall|d: u32| #[trigger] n.classes.contains_key(d) implies n.queue_ok(d)
        && n.class_ok(d) by {
        assert(n.live_in(d) == m.live_in(d));
        assert(n.holders_in(d) == m.holders_in(d));
        assert(n.newcomers_in(d) == m.newcomers_in(d));
        if m.classes.contains_key(d) {
            assert(m.queue_ok(d) && m.class_ok(d));
        }
    }
}

/// No task names a class that is not known.
pub proof fn lemma_unknown_class(m: SchedulerModel, c: u32)
    requires
        m.consistent(),
        !m.classes.contains_key(c),
    ensures
        m.live_in(c).len() == 0,
        m.holders_in(c).len() == 0,
        m.newcomers_in(c).len() == 0,
{
    assert(m.live_in(c) =~= Set::empty());
    assert(m.holders_in(c) =~= Set::empty());
    assert(m.newcomers_in(c) =~= Set::empty());
}

/// A new task can join any class.
pub proof fn lemma_schedule(m: SchedulerModel, class: TaskClass, now: u64)
    requires
        m.consistent(),
        m.enabled ==> m.next_task < u64::MAX,
    ensures
        m.schedule(class, now).consistent(),
        m.work_conserving() ==> m.schedule(class, now).work_conserving(),
        m.enabled ==> m.class_or_new(class@).stats.tasks < u64::MAX,
{
    let own = class@;
    let id = m.next_task;
    let task = TaskControl::fresh(class, now);
    let n = m.schedule(class, now);
    if !m.classes.contains_key(own) {
        lemma_unknown_class(m, own);
    } else {
        assert(m.class_ok(own));
    }
    if m.enabled {
        lemma_matching_insert(m.tasks, id, task, is_holder());
        assert(!m.tasks.contains_key(id));
        assert forall|c: u32| #[trigger] n.classes.contains_key(c) implies n.queue_ok(c)
            && n.class_ok(c) by {
            lemma_matching_insert(m.tasks, id, task, is_in(c));
            lemma_matching_insert(m.tasks, id, task, is_holder_in(c));
            lemma_matching_insert(m.tasks, id, task, is_newcomer_in(c));
            if m.classes.contains_key(c) {
                assert(m.queue_ok(c) && m.class_ok(c));
            }
        }
        assert forall|other: u64| #[trigger] n.tasks.contains_key(other) implies {
            &&& n.classes.contains_key(n.tasks[other].class@)
            &&& n.tasks[other].phase is Queued ==> n.class_of(other).queue.contains(other)
        } by {
            if other != id {
                assert(m.tasks.contains_key(other));
            }
        }
        assert forall|c: u32| n.backlogged(c) implies m.backlogged(c) by {}
    }
}

/// Two schedulers with the same tasks in the same slots and queues are consistent
/// together, as long as the counters and entitlements of their classes, and their
/// limits, fit.
proof fn lemma_same_tasks(m: SchedulerModel, n: SchedulerModel)
    requires
        m.consistent(),
        n.tasks == m.tasks,
        n.active == m.active,
        n.max_concurrent_polls > 0,
        n.next_task == m.next_task,
        n.direct_before == m.direct_before,
        !n.enabled ==> !m.enabled,
        n.classes.dom() == m.classes.dom(),
        forall|c: u32| #[trigger]
            m.classes.contains_key(c) ==> {
                &&& n.classes[c].queue == m.classes[c].queue
                &&& n.classes[c].entitlement() == m.classes[c].entitlement()
                &&& n.classes[c].stats == (ClassStats {
                    wakes: n.classes[c].stats.wakes,
                    ..m.classes[c].stats
                })
            },
    ensures
        n.consistent(),
        n.max_concurrent_polls == m.max_concurrent_polls && m.work_conserving()
            ==> n.work_conserving(),
{
    assert(n.holders() == m.holders());
    assert forall|c: u32| #[trigger] n.classes.contains_key(c) implies n.queue_ok(c)
        && n.class_ok(c) by {
        assert(m.classes.contains_key(c));
        assert(n.live_in(c) == m.live_in(c));
        assert(n.holders_in(c) == m.holders_in(c));
        assert(n.newcomers_in(c) == m.newcomers_in(c));
        assert(m.queue_ok(c) && m.class_ok(c));
    }
    assert forall|c: u32| n.backlogged(c) implies m.backlogged(c) by {
        if n.backlogged(c) {
            assert(m.classes.contains_key(c));
        }
    }
}

/// Counting a wake changes nothing else.
pub proof fn lemma_count_wake(m: SchedulerModel, c: u32)
    requires
        m.consistent(),
        m.classes.contains_key(c),
    ensures
        m.put_class(c, m.classes[c].count_wake()).consistent(),
        m.work_conserving() ==> m.put_class(c, m.classes[c].count_wake()).work_conserving(),
{
    let n = m.put_class(c, m.classes[c].count_wake());
    assert(n.classes.dom() =~= m.classes.dom());
    lemma_same_tasks(m, n);
}

/// The number of slots can change.
pub proof fn lemma_limit(m: SchedulerModel, max_concurrent_polls: usize)
    requires
        m.consistent(),
        max_concurrent_polls > 0,
    ensures
        m.limit(max_concurrent_polls).consistent(),
{
    lemma_same_tasks(m, m.limit(max_concurrent_polls));
}

/// A scheduler can be disabled.
pub proof fn lemma_disable(m: SchedulerModel)
    requires
        m.consistent(),
    ensures
        m.disable().consistent(),
        m.disable().work_conserving(),
{
    let n = m.disable();
    assert(n.tasks.dom() =~= m.tasks.dom());
    assert(n.classes.dom() =~= m.classes.dom());
    assert(n.holders() =~= m.holders());
    assert forall|d: u32| #[trigger] n.classes.contains_key(d) implies n.queue_ok(d)
        && n.class_ok(d) by {
        assert(n.live_in(d) =~= m.live_in(d));
        assert(n.holders_in(d) =~= m.holders_in(d));
        assert(n.newcomers_in(d) =~= m.newcomers_in(d));
        assert(m.queue_ok(d) && m.class_ok(d));
    }
    assert forall|id: u64| #[trigger] n.tasks.contains_key(id) implies n.classes.contains_key(
        n.tasks[id].class@,
    ) by {
        assert(m.tasks.contains_key(id));
    }
}

/// A scheduler that has done nothing yet is in order.
pub proof fn lemma_initial(max_concurrent_polls: usize, entitlements: Map<u32, Entitlement>)
    requires
        max_concurrent_polls > 0,
        entitlements.dom().finite(),
        forall|c: u32| #[trigger] entitlements.contains_key(c) ==> entitlements[c].valid(),
    ensures
        SchedulerModel::initial(max_concurrent_polls, entitlements).wf(),
{
    let m = SchedulerModel::initial(max_concurrent_polls, entitlements);
    assert(m.classes.dom() =~= entitlements.dom());
    assert(m.holders() =~= Set::empty());
    assert forall|c: u32| #[trigger] m.classes.contains_key(c) implies m.queue_ok(c) && m.class_ok(
        c,
    ) by {
        assert(m.live_in(c) =~= Set::empty());
        assert(m.holders_in(c) =~= Set::empty());
        assert(m.newcomers_in(c) =~= Set::empty());
        assert(m.classes[c].entitlement() == entitlements[c]);
    }
}

/// A scheduler can be enabled.
pub proof fn lemma_enable(m: SchedulerModel)
    requires
        m.consistent(),
    ensures
        m.enable().consistent(),
        m.work_conserving() ==> m.enable().work_conserving(),
{
    lemma_same_tasks(m, m.enable());
}

/// Sending one waiting task away is a part of disabling the scheduler.
pub proof fn lemma_send_away(m: SchedulerModel, c: u32)
    requires
        m.consistent(),
        m.backlogged(c),
    ensures
        m.send_away(c).consistent(),
        m.send_away(c).disable() == m.disable(),
        m.send_away(c).waiting() == m.waiting().remove(m.classes[c].queue[0]),
        m.waiting().contains(m.classes[c].queue[0]),
        m.waiting().finite(),
        m.send_away(c).drained() == m.drained().remove(m.classes[c].queue[0]),
        m.drained().contains(m.classes[c].queue[0]) == m.tasks[m.classes[c].queue[0]].has_waker,
{
    let queue = m.classes[c].queue;
    let id = queue[0];
    let task = TaskControl { phase: TaskPhase::Idle, queued_at: None, ..m.tasks[id] };
    assert(m.queue_ok(c) && m.class_ok(c));
    lemma_withdraw(m, id);
    let left = m.withdraw(id);
    lemma_touch_task(left, id, task);
    lemma_without_first(queue);
    let n = m.send_away(c);
    assert(n.tasks =~= left.put_task(id, task).tasks);
    assert(n == left.put_task(id, task));
    lemma_matching_insert(m.tasks, id, task, is_waiting());
    assert(n.drained() =~= m.drained().remove(id));
    let a = n.disable();
    let b = m.disable();
    assert(a.tasks =~= b.tasks);
    assert(a.classes =~= b.classes);
}

/// The first of several different entries taken out leaves the others.
proof fn lemma_without_first(queue: Seq<u64>)
    requires
        queue.len() > 0,
        queue.no_duplicates(),
    ensures
        without(queue, queue[0]) == queue.skip(1),
{
    reveal_with_fuel(Seq::filter, 2);
    let id = queue[0];
    let front = seq![id];
    let rest = queue.skip(1);
    assert(queue =~= front + rest);
    Seq::filter_distributes_over_add(front, rest, |x: u64| x != id);
    assert(front.drop_last() =~= Seq::empty());
    assert(without(front, id) =~= Seq::empty());
    assert(!rest.contains(id));
    lemma_without(rest, id);
    assert(without(queue, id) =~= rest);
}

/// A scheduler in which nothing waits has nothing to send away.
pub proof fn lemma_disable_idle(m: SchedulerModel)
    requires
        m.consistent(),
        forall|c: u32| !m.backlogged(c),
    ensures
        m.disable() == (SchedulerModel {
            enabled: false,
            direct_before: m.next_task,
            ..m
        }),
        m.drained() == Set::<u64>::empty(),
{
    let n = m.disable();
    assert forall|id: u64| #[trigger] m.tasks.contains_key(id) implies !(
    m.tasks[id].phase is Queued) by {
        if m.tasks[id].phase is Queued {
            assert(m.backlogged(m.tasks[id].class@));
        }
    }
    assert(n.tasks =~= m.tasks);
    assert forall|c: u32| #[trigger] m.classes.contains_key(c) implies n.classes[c]
        == m.classes[c] by {
        assert(m.class_ok(c));
        assert(!m.backlogged(c));
        assert(m.classes[c].queue =~= Seq::empty());
    }
    assert(n.classes =~= m.classes);
    assert(m.drained() =~= Set::empty());
}

} // verus!
