//! What each operation does, as it shows in tasks, queues and counters.

use vstd::prelude::*;

use crate::class::{Entitlement, SoftCpuLimit, TaskClass};
use crate::control::TaskPhase;
use crate::fairness::{
    law_listed_classes_are_entitled, law_unlisted_classes_stay, lemma_lowest_of,
    lemma_lowest_pass_bound,
};
use crate::invariants::{
    lemma_count_wake, lemma_enqueue, lemma_entitle, lemma_free_slot, lemma_go, lemma_limit,
    lemma_release, lemma_touch_task, lemma_withdraw, lemma_without,
};
use crate::laws::{
    class_only_admits, law_dispatch_only_admits, law_dispatch_stops,
    law_lowest_pass_is_served_first, lemma_after, lemma_entitle_all, moment, Operation,
};
use crate::model::{charge, without, SchedulerModel};
use crate::scheduler::HandleModel;
use crate::stats::ClassStats;

verus! {

/// A charge is the time in units of the passes, over the entitlement in cores and
/// the number of polls that shared the machine, rounded down.
pub proof fn law_charge_is_time_over_entitlement(t: nat, millicores: nat, active: nat)
    requires
        millicores > 0,
        active > 0,
    ensures
        millicores * active * charge(t, millicores, active) <= t * 4_294_967_296_000,
        t * 4_294_967_296_000 < millicores * active * (charge(t, millicores, active) + 1),
{
    let w = millicores * active;
    let q = charge(t, millicores, active);
    let work = t * 4_294_967_296 * 1000;
    assert(w > 0) by (nonlinear_arith)
        requires
            millicores > 0,
            active > 0,
            w == millicores * active,
    ;
    vstd::arithmetic::div_mod::lemma_fundamental_div_mod(work as int, w as int);
    vstd::arithmetic::div_mod::lemma_mod_bound(work as int, w as int);
    assert(w * (q + 1) == w * q + w) by (nonlinear_arith);
}

/// Whether a pass has been charged for `t` nanoseconds, of a class entitled to
/// `millicores`, when `active` polls shared the machine. It is held at the highest
/// pass there is.
pub open spec fn is_charged_for(
    before: u128,
    after: u128,
    t: u64,
    millicores: u64,
    active: usize,
) -> bool {
    &&& before <= after
    &&& millicores * active * (after - before) <= t * 4_294_967_296_000
    &&& after < u128::MAX ==> t * 4_294_967_296_000 < millicores * active * (after - before + 1)
}

/// Whether two schedulers are the same but for one task, one class, the taken slots
/// and the virtual time.
pub open spec fn same_elsewhere(m: SchedulerModel, n: SchedulerModel, id: u64, c: u32) -> bool {
    &&& n.max_concurrent_polls == m.max_concurrent_polls
    &&& n.enabled == m.enabled
    &&& n.next_task == m.next_task
    &&& n.direct_before == m.direct_before
    &&& n.classes.dom() == m.classes.dom()
    &&& forall|d: u32| #[trigger]
        m.classes.contains_key(d) && d != c ==> n.classes[d] == m.classes[d]
    &&& forall|x: u64| x != id ==> #[trigger] n.tasks.contains_key(x) == m.tasks.contains_key(x)
    &&& forall|x: u64| #[trigger]
        m.tasks.contains_key(x) && x != id ==> n.tasks[x] == m.tasks[x]
}

/// A scheduler that was just built has the classes that it was configured with,
/// each with exactly its own entitlement, and has done nothing.
pub proof fn law_built_as_configured(
    max_concurrent_polls: usize,
    entitlements: Map<u32, Entitlement>,
)
    ensures
        ({
            let m = SchedulerModel::initial(max_concurrent_polls, entitlements);
            &&& m.max_concurrent_polls == max_concurrent_polls
            &&& m.active == 0
            &&& m.virtual_time == 0
            &&& m.enabled
            &&& m.next_task == 0
            &&& m.direct_before == 0
            &&& forall|id: u64| !#[trigger] m.tasks.contains_key(id)
            &&& forall|c: u32| #[trigger]
                m.classes.contains_key(c) <==> entitlements.contains_key(c)
            &&& forall|c: u32| #[trigger]
                entitlements.contains_key(c) ==> {
                    &&& m.classes[c].millicores == entitlements[c].millicores
                    &&& m.classes[c].stats.weight == entitlements[c].weight
                    &&& m.classes[c].pass == 0
                    &&& m.classes[c].queue.len() == 0
                    &&& m.classes[c].stats.queued == 0
                    &&& m.classes[c].stats.tasks == 0
                    &&& m.classes[c].stats.wakes == 0
                    &&& m.classes[c].stats.polls == 0
                    &&& m.classes[c].stats.completed == 0
                    &&& m.classes[c].stats.cancelled == 0
                    &&& m.classes[c].stats.total_admission_wait == 0
                    &&& m.classes[c].stats.total_exec_time == 0
                    &&& m.classes[c].stats.admitted == 0
                }
        }),
{
}

/// A weight counts one thousand milli-cores a unit, and is listed as it is. A soft
/// CPU limit counts its milli-cores, and is listed as weight zero.
pub proof fn law_entitlements_count_as_given(weight: u32, limit: SoftCpuLimit)
    ensures
        Entitlement::weighted(weight).millicores == weight * 1000,
        Entitlement::weighted(weight).weight == weight,
        Entitlement::limited(limit).millicores == limit@,
        Entitlement::limited(limit).weight == 0,
{
    assert(weight * 1000 <= u64::MAX);
}

/// A snapshot lists every class, with its own counters. The milli-cores of a known
/// class are its own, and those of an unknown one are a thousand.
pub proof fn law_queries_show_what_is_there(m: SchedulerModel, c: u32)
    ensures
        m.stats().contains_key(c) == m.classes.contains_key(c),
        m.classes.contains_key(c) ==> m.stats()[c] == m.classes[c].stats,
        m.classes.contains_key(c) ==> m.entitlement(c) == m.classes[c].millicores,
        !m.classes.contains_key(c) ==> m.entitlement(c) == 1000,
        m.has_room(c) <==> m.classes[c].stats.polls + m.classes[c].stats.queued < u64::MAX,
{
}

/// While a scheduler is enabled, a future that is wrapped becomes a task of its own,
/// which is idle and has not been polled, and is counted in its class. A class that
/// was not known starts with weight one at the virtual time. While it is disabled
/// nothing changes.
pub proof fn law_wrapping_adds_one_idle_task(m: SchedulerModel, class: TaskClass, now: u64)
    requires
        m.wf(),
        m.enabled ==> m.next_task < u64::MAX,
    ensures
        !m.enabled ==> m.schedule(class, now) == m,
        m.enabled ==> {
            let n = m.schedule(class, now);
            let id = m.next_task;
            let c = class@;
            &&& n.max_concurrent_polls == m.max_concurrent_polls
            &&& n.active == m.active
            &&& n.virtual_time == m.virtual_time
            &&& n.enabled
            &&& n.next_task == m.next_task + 1
            &&& n.direct_before == m.direct_before
            &&& !m.tasks.contains_key(id)
            &&& n.tasks.contains_key(id)
            &&& n.tasks[id].class == class
            &&& n.tasks[id].phase is Idle
            &&& !n.tasks[id].has_waker
            &&& n.tasks[id].created == now
            &&& n.tasks[id].queued_at is None
            &&& !n.tasks[id].admitted
            &&& forall|x: u64|
                x != id ==> #[trigger] n.tasks.contains_key(x) == m.tasks.contains_key(x)
            &&& forall|x: u64| #[trigger]
                m.tasks.contains_key(x) ==> n.tasks[x] == m.tasks[x]
            &&& forall|d: u32|
                d != c ==> #[trigger] n.classes.contains_key(d) == m.classes.contains_key(d)
            &&& forall|d: u32| #[trigger]
                m.classes.contains_key(d) && d != c ==> n.classes[d] == m.classes[d]
            &&& n.classes.contains_key(c)
            &&& if m.classes.contains_key(c) {
                &&& n.classes[c].pass == m.classes[c].pass
                &&& n.classes[c].millicores == m.classes[c].millicores
                &&& n.classes[c].queue == m.classes[c].queue
                &&& n.classes[c].stats == (ClassStats {
                    tasks: (m.classes[c].stats.tasks + 1) as u64,
                    ..m.classes[c].stats
                })
                &&& m.classes[c].stats.tasks < u64::MAX
            } else {
                &&& n.classes[c].pass == m.virtual_time
                &&& n.classes[c].millicores == 1000
                &&& n.classes[c].queue.len() == 0
                &&& n.classes[c].stats == (ClassStats {
                    weight: 1,
                    queued: 0,
                    tasks: 1,
                    wakes: 0,
                    polls: 0,
                    completed: 0,
                    cancelled: 0,
                    total_admission_wait: 0,
                    total_exec_time: 0,
                    admitted: 0,
                })
            }
        },
{
    if m.classes.contains_key(class@) {
        assert(m.class_ok(class@));
    }
    assert(!m.tasks.contains_key(m.next_task));
}

/// A task that becomes runnable goes to the end of the queue of its class, behind
/// all those that wait, and the moment is noted. A class that nobody waited in takes
/// up the virtual time. Nothing else changes.
pub proof fn law_newcomers_go_to_the_end(m: SchedulerModel, id: u64, now: u64)
    requires
        m.tasks.contains_key(id),
        m.classes.contains_key(m.tasks[id].class@),
        m.class_of(id).stats.queued < usize::MAX,
    ensures
        ({
            let c = m.tasks[id].class@;
            let n = m.enqueue(id, now);
            let before = m.classes[c];
            let after = n.classes[c];
            &&& after.queue.len() == before.queue.len() + 1
            &&& after.queue[before.queue.len() as int] == id
            &&& forall|i: int| 0 <= i < before.queue.len() ==> after.queue[i] == before.queue[i]
            &&& after.pass == (if before.queue.len() == 0 && before.pass < m.virtual_time {
                m.virtual_time
            } else {
                before.pass
            })
            &&& after.millicores == before.millicores
            &&& after.stats.queued == before.stats.queued + 1
            &&& after.stats == (ClassStats { queued: after.stats.queued, ..before.stats })
            &&& n.tasks.contains_key(id)
            &&& n.tasks[id].phase is Queued
            &&& n.tasks[id].queued_at == Some(now)
            &&& n.tasks[id].class == m.tasks[id].class
            &&& n.tasks[id].has_waker == m.tasks[id].has_waker
            &&& n.tasks[id].created == m.tasks[id].created
            &&& n.tasks[id].admitted == m.tasks[id].admitted
            &&& n.max_concurrent_polls == m.max_concurrent_polls
            &&& n.active == m.active
            &&& n.virtual_time == m.virtual_time
            &&& n.enabled == m.enabled
            &&& n.next_task == m.next_task
            &&& n.direct_before == m.direct_before
            &&& n.classes.remove(c) == m.classes.remove(c)
            &&& n.tasks.remove(id) == m.tasks.remove(id)
        }),
{
    let n = m.enqueue(id, now);
    let c = m.tasks[id].class@;
    assert(n.classes.remove(c) =~= m.classes.remove(c));
    assert(n.tasks.remove(id) =~= m.tasks.remove(id));
}

/// A slot that is given back is paid for: the class of the task is charged with the
/// time over its entitlement and the number of polls that shared the machine,
/// rounded down, whether or not others of it wait. The pass is held at the highest
/// there is. Where the time is not known, nothing is charged.
pub proof fn law_slots_given_back_are_paid_for(m: SchedulerModel, id: u64, exec_time: Option<u64>)
    requires
        m.consistent(),
        m.tasks.contains_key(id),
        m.tasks[id].phase is Admitted || m.tasks[id].phase is Polling
            || m.tasks[id].phase is PollingNotified,
    ensures
        ({
            let c = m.tasks[id].class@;
            let n = m.release(id, exec_time);
            let before = m.classes[c];
            let after = n.classes[c];
            let share = before.millicores * m.active;
            &&& share > 0
            &&& n.active == m.active - 1
            &&& match exec_time {
                Some(t) => {
                    &&& after.stats.total_exec_time == before.stats.total_exec_time + t
                    &&& after.pass >= before.pass
                    &&& share * (after.pass - before.pass) <= t * 4_294_967_296_000
                    &&& after.pass == u128::MAX || t * 4_294_967_296_000 < share * (after.pass
                        - before.pass + 1)
                },
                None => {
                    &&& after.stats.total_exec_time == before.stats.total_exec_time
                    &&& after.pass == before.pass
                },
            }
            &&& after.queue == before.queue
            &&& after.millicores == before.millicores
            &&& after.stats == (ClassStats {
                total_exec_time: after.stats.total_exec_time,
                ..before.stats
            })
            &&& n.tasks.contains_key(id)
            &&& n.tasks[id].phase is Idle
            &&& n.tasks[id].class == m.tasks[id].class
            &&& n.tasks[id].has_waker == m.tasks[id].has_waker
            &&& n.tasks[id].created == m.tasks[id].created
            &&& n.tasks[id].queued_at == m.tasks[id].queued_at
            &&& n.tasks[id].admitted == m.tasks[id].admitted
            &&& n.max_concurrent_polls == m.max_concurrent_polls
            &&& n.virtual_time == m.virtual_time
            &&& n.enabled == m.enabled
            &&& n.next_task == m.next_task
            &&& n.direct_before == m.direct_before
            &&& n.classes.remove(c) == m.classes.remove(c)
            &&& n.tasks.remove(id) == m.tasks.remove(id)
        }),
{
    let n = m.release(id, exec_time);
    let c = m.tasks[id].class@;
    lemma_is_paid(m, id, exec_time);
    lemma_free_slot(m, id);
    assert(m.class_ok(c));
    assert(m.classes[c].millicores * m.active > 0) by (nonlinear_arith)
        requires
            m.classes[c].millicores > 0,
            m.active > 0,
    ;
    assert(n.classes.remove(c) =~= m.classes.remove(c));
    assert(n.tasks.remove(id) =~= m.tasks.remove(id));
}

/// What becomes of an idle task that asks for admission. Its class takes up the
/// virtual time if nobody else of it waits. While all slots are taken, the task goes
/// to the end of the queue. While one is free, nobody waits, and the task is
/// admitted at once, if there is an executor to wake for it.
pub open spec fn joins(
    m: SchedulerModel,
    n: SchedulerModel,
    woken: Seq<u64>,
    id: u64,
    now: u64,
) -> bool {
    let c = m.tasks[id].class@;
    let before = m.classes[c];
    let after = n.classes[c];
    &&& same_elsewhere(m, n, id, c)
    &&& n.tasks.contains_key(id)
    &&& n.tasks[id].class == m.tasks[id].class
    &&& n.tasks[id].created == m.tasks[id].created
    &&& after.pass == (if before.queue.len() == 0 && before.pass < m.virtual_time {
        m.virtual_time
    } else {
        before.pass
    })
    &&& after.millicores == before.millicores
    &&& after.stats.weight == before.stats.weight
    &&& after.stats.tasks == before.stats.tasks
    &&& after.stats.completed == before.stats.completed
    &&& after.stats.cancelled == before.stats.cancelled
    &&& after.stats.total_exec_time == before.stats.total_exec_time
    &&& after.stats.queued == after.queue.len()
    &&& if m.active >= m.max_concurrent_polls {
        &&& woken.len() == 0
        &&& n.active == m.active
        &&& n.virtual_time == m.virtual_time
        &&& n.tasks[id].phase is Queued
        &&& n.tasks[id].queued_at == Some(now)
        &&& n.tasks[id].admitted == m.tasks[id].admitted
        &&& after.queue.len() == before.queue.len() + 1
        &&& after.queue[before.queue.len() as int] == id
        &&& forall|i: int| 0 <= i < before.queue.len() ==> after.queue[i] == before.queue[i]
        &&& after.stats.polls == before.stats.polls
        &&& after.stats.admitted == before.stats.admitted
        &&& after.stats.total_admission_wait == before.stats.total_admission_wait
    } else if n.tasks[id].has_waker {
        &&& woken.len() == 1 && woken[0] == id
        &&& n.active == m.active + 1
        &&& n.virtual_time == after.pass
        &&& n.tasks[id].phase is Admitted
        &&& n.tasks[id].queued_at is None
        &&& n.tasks[id].admitted
        &&& after.queue.len() == 0
        &&& after.stats.polls == before.stats.polls + 1
        &&& after.stats.admitted == before.stats.admitted + (if m.tasks[id].admitted {
            0int
        } else {
            1
        })
        &&& after.stats.total_admission_wait == before.stats.total_admission_wait
    } else {
        &&& woken.len() == 0
        &&& n.active == m.active
        &&& n.virtual_time == m.virtual_time
        &&& n.tasks[id].phase is Idle
        &&& n.tasks[id].queued_at == Some(now)
        &&& n.tasks[id].admitted == m.tasks[id].admitted
        &&& after.queue.len() == 0
        &&& after.stats.polls == before.stats.polls
        &&& after.stats.admitted == before.stats.admitted
        &&& after.stats.total_admission_wait == before.stats.total_admission_wait
    }
}

/// An idle task that asks for admission is queued or admitted.
proof fn lemma_joins(m: SchedulerModel, id: u64, now: u64)
    requires
        m.wf(),
        m.phase(id) is Idle,
        !m.is_direct(id),
        m.can_enqueue(id),
    ensures
        joins(m, m.enqueue(id, now).dispatch(now).0, m.enqueue(id, now).dispatch(now).1, id, now),
        m.enqueue(id, now).dispatch(now).0.tasks[id].has_waker == m.tasks[id].has_waker,
        m.enqueue(id, now).dispatch(now).0.classes[m.tasks[id].class@].stats.wakes == m.class_of(
            id,
        ).stats.wakes,
{
    let c = m.tasks[id].class@;
    let o = m.enqueue(id, now);
    assert(m.tasks.contains_key(id));
    assert(m.class_ok(c) && m.queue_ok(c));
    lemma_enqueue(m, id, now);
    assert(o.classes.dom() =~= m.classes.dom());
    if m.active >= m.max_concurrent_polls {
        law_dispatch_stops(o, now);
    } else {
        assert(!m.backlogged(c));
        assert(m.classes[c].queue.len() == 0);
        assert(o.classes[c].queue =~= seq![id]);
        assert(o.backlogged(c));
        assert forall|d: u32| #[trigger] o.backlogged(d) implies d == c by {
            if d != c {
                assert(!m.backlogged(d));
            }
        }
        law_lowest_pass_is_served_first(o, c, now);
        let s = o.serve(c, now);
        assert(s.classes.dom() =~= m.classes.dom());
        assert forall|d: u32| !s.backlogged(d) by {
            if d != c {
                assert(!o.backlogged(d));
            }
        }
        law_dispatch_stops(s, now);
        assert(o.dispatch(now).1 =~= o.served(c));
    }
}

/// No wake is lost: the wake of an idle task queues it, or, when a slot is free,
/// admits it at once and wakes its executor.
pub proof fn law_wakes_lead_to_admission(m: SchedulerModel, id: u64, now: u64)
    requires
        m.wf(),
        m.tasks.contains_key(id),
        m.tasks[id].phase is Idle,
        id >= m.direct_before,
        m.tasks[id].has_waker,
        m.class_of(id).stats.polls + m.class_of(id).stats.queued < u64::MAX,
        m.class_of(id).queue.len() < usize::MAX,
    ensures
        ({
            let n = m.notify(id, m.tasks[id].class@, now).0;
            let woken = m.notify(id, m.tasks[id].class@, now).1;
            &&& n.tasks.contains_key(id)
            &&& n.tasks[id].phase is Queued || n.tasks[id].phase is Admitted
            &&& n.tasks[id].phase is Admitted <==> woken.contains(id)
            &&& m.active < m.max_concurrent_polls ==> n.tasks[id].phase is Admitted && woken
                == seq![id] && n.active == m.active + 1
            &&& m.active >= m.max_concurrent_polls ==> n.tasks[id].phase is Queued && n.active
                == m.active
        }),
{
    law_wakes_are_taken_in(m, id, m.tasks[id].class@, now);
    let woken = m.notify(id, m.tasks[id].class@, now).1;
    if m.active < m.max_concurrent_polls {
        assert(woken =~= seq![id]);
        assert(woken[0] == id);
    }
}

/// What a wake does: it is counted in its class, and further depends on where the
/// task stands. An idle one asks for admission, or, if it is direct, is woken at
/// once. One that is being polled is marked. Otherwise nothing else happens.
pub proof fn law_wakes_are_taken_in(m: SchedulerModel, id: u64, c: u32, now: u64)
    requires
        m.wf(),
        m.classes.contains_key(c),
        m.tasks.contains_key(id) ==> m.tasks[id].class@ == c,
        m.tasks.contains_key(id) && m.tasks[id].phase is Idle && id >= m.direct_before
            ==> m.classes[c].stats.polls + m.classes[c].stats.queued < u64::MAX
            && m.classes[c].queue.len() < usize::MAX,
    ensures
        ({
            let n = m.notify(id, c, now).0;
            let woken = m.notify(id, c, now).1;
            &&& n.classes[c].stats.wakes == (if m.classes[c].stats.wakes == u64::MAX {
                0
            } else {
                m.classes[c].stats.wakes + 1
            })
            &&& if m.tasks.contains_key(id) && m.tasks[id].phase is Idle && id
                >= m.direct_before {
                &&& n.tasks[id].has_waker == m.tasks[id].has_waker
                &&& joins(m, n, woken, id, now)
            } else {
                &&& same_elsewhere(m, n, id, c)
                &&& n.active == m.active
                &&& n.virtual_time == m.virtual_time
                &&& n.classes[c].pass == m.classes[c].pass
                &&& n.classes[c].millicores == m.classes[c].millicores
                &&& n.classes[c].queue == m.classes[c].queue
                &&& n.classes[c].stats == (ClassStats {
                    wakes: n.classes[c].stats.wakes,
                    ..m.classes[c].stats
                })
                &&& n.tasks.contains_key(id) == m.tasks.contains_key(id)
                &&& m.tasks.contains_key(id) ==> {
                    &&& n.tasks[id].class == m.tasks[id].class
                    &&& n.tasks[id].has_waker == m.tasks[id].has_waker
                    &&& n.tasks[id].created == m.tasks[id].created
                    &&& n.tasks[id].queued_at == m.tasks[id].queued_at
                    &&& n.tasks[id].admitted == m.tasks[id].admitted
                    &&& n.tasks[id].phase == (if m.tasks[id].phase is Polling {
                        TaskPhase::PollingNotified
                    } else {
                        m.tasks[id].phase
                    })
                }
                &&& if m.tasks.contains_key(id) && m.tasks[id].phase is Idle
                    && m.tasks[id].has_waker {
                    woken.len() == 1 && woken[0] == id
                } else {
                    woken.len() == 0
                }
            }
        }),
{
    let r = m.put_class(c, m.classes[c].count_wake());
    lemma_count_wake(m, c);
    assert(r.classes.dom() =~= m.classes.dom());
    if m.phase(id) is Idle && !m.is_direct(id) {
        lemma_joins(r, id, now);
        let n = m.notify(id, c, now).0;
        assert forall|d: u32| #[trigger] m.classes.contains_key(d) && d != c implies n.classes[d]
            == m.classes[d] by {
            assert(r.classes.contains_key(d));
        }
        assert forall|x: u64| #[trigger] m.tasks.contains_key(x) && x != id implies n.tasks[x]
            == m.tasks[x] by {
            assert(r.tasks.contains_key(x));
        }
    }
}

/// What an executor's coming to poll does: its waker is noted, and further depends
/// on where the task stands. An idle one asks for admission and has to wait, or, if
/// it is direct, is polled directly. An admitted one is polled. Otherwise the task
/// stays as it is and has to wait.
pub proof fn law_polls_begin_when_admitted(m: SchedulerModel, id: u64, now: u64)
    requires
        m.wf(),
        m.tasks.contains_key(id) && m.tasks[id].phase is Idle && id >= m.direct_before
            ==> m.class_of(id).stats.polls + m.class_of(id).stats.queued < u64::MAX && m.class_of(
            id,
        ).queue.len() < usize::MAX,
    ensures
        ({
            let n = m.begin_poll(id, now).0;
            let decision = m.begin_poll(id, now).1;
            let woken = m.begin_poll(id, now).2;
            let c = m.tasks[id].class@;
            if !m.tasks.contains_key(id) {
                n == m && decision is Wait && woken.len() == 0
            } else {
                &&& n.tasks.contains_key(id)
                &&& n.tasks[id].has_waker
                &&& if m.tasks[id].phase is Idle && id >= m.direct_before {
                    &&& decision is Wait
                    &&& joins(m, n, woken, id, now)
                    &&& n.classes[c].stats.wakes == m.classes[c].stats.wakes
                } else {
                    &&& same_elsewhere(m, n, id, c)
                    &&& n.classes == m.classes
                    &&& n.active == m.active
                    &&& n.virtual_time == m.virtual_time
                    &&& woken.len() == 0
                    &&& n.tasks[id].class == m.tasks[id].class
                    &&& n.tasks[id].created == m.tasks[id].created
                    &&& n.tasks[id].queued_at == m.tasks[id].queued_at
                    &&& n.tasks[id].admitted == m.tasks[id].admitted
                    &&& match m.tasks[id].phase {
                        TaskPhase::Idle => decision is Direct && n.tasks[id].phase is Idle,
                        TaskPhase::Admitted => decision is Managed && n.tasks[id].phase is Polling,
                        _ => decision is Wait && n.tasks[id].phase == m.tasks[id].phase,
                    }
                }
            }
        }),
{
    if m.tasks.contains_key(id) {
        let r = m.register(id);
        let task = r.tasks[id];
        lemma_touch_task(m, id, task);
        if m.phase(id) is Idle && !m.is_direct(id) {
            lemma_joins(r, id, now);
            let n = m.begin_poll(id, now).0;
            assert forall|x: u64| #[trigger] m.tasks.contains_key(x) && x != id implies n.tasks[x]
                == m.tasks[x] by {
                assert(r.tasks.contains_key(x));
            }
            assert forall|x: u64| x != id implies #[trigger] n.tasks.contains_key(x)
                == m.tasks.contains_key(x) by {
                assert(n.tasks.contains_key(x) == r.tasks.contains_key(x));
            }
        }
    }
}

/// Whether the poll of a task has been charged to its class, and its slot given
/// back: the class of identifier `c` pays for the time, whether or not others of it
/// wait, and nothing else changes.
pub open spec fn is_paid(
    m: SchedulerModel,
    n: SchedulerModel,
    id: u64,
    exec_time: Option<u64>,
) -> bool {
    let c = m.tasks[id].class@;
    let before = m.classes[c];
    let after = n.classes[c];
    &&& same_elsewhere(m, n, id, c)
    &&& n.active == m.active - 1
    &&& n.virtual_time == m.virtual_time
    &&& after.millicores == before.millicores
    &&& after.queue == before.queue
    &&& after.stats.weight == before.stats.weight
    &&& after.stats.queued == before.stats.queued
    &&& after.stats.tasks == before.stats.tasks
    &&& after.stats.wakes == before.stats.wakes
    &&& after.stats.polls == before.stats.polls
    &&& after.stats.admitted == before.stats.admitted
    &&& after.stats.total_admission_wait == before.stats.total_admission_wait
    &&& match exec_time {
        Some(t) => {
            &&& is_charged_for(before.pass, after.pass, t, before.millicores, m.active)
            &&& after.stats.total_exec_time == before.stats.total_exec_time + t
        },
        None => {
            &&& after.pass == before.pass
            &&& after.stats.total_exec_time == before.stats.total_exec_time
        },
    }
}

/// A slot given back is paid for.
proof fn lemma_is_paid(m: SchedulerModel, id: u64, exec_time: Option<u64>)
    requires
        m.consistent(),
        m.phase(id).holds_slot(),
    ensures
        is_paid(m, m.release(id, exec_time), id, exec_time),
        m.release(id, exec_time).consistent(),
        m.release(id, exec_time).tasks.contains_key(id),
        m.release(id, exec_time).tasks[id].phase is Idle,
        m.release(id, exec_time).tasks[id].class == m.tasks[id].class,
        m.release(id, exec_time).tasks[id].has_waker == m.tasks[id].has_waker,
        m.release(id, exec_time).tasks[id].created == m.tasks[id].created,
        m.release(id, exec_time).tasks[id].queued_at == m.tasks[id].queued_at,
        m.release(id, exec_time).tasks[id].admitted == m.tasks[id].admitted,
        m.release(id, exec_time).classes[m.tasks[id].class@].stats.completed == m.class_of(
            id,
        ).stats.completed,
        m.release(id, exec_time).classes[m.tasks[id].class@].stats.cancelled == m.class_of(
            id,
        ).stats.cancelled,
{
    let c = m.tasks[id].class@;
    let n = m.release(id, exec_time);
    lemma_release(m, id, exec_time);
    lemma_free_slot(m, id);
    assert(m.tasks.contains_key(id));
    assert(m.classes.contains_key(c));
    assert(m.class_ok(c));
    assert(n.classes.dom() =~= m.classes.dom());
    if let Some(t) = exec_time {
        let mc = m.classes[c].millicores;
        let q = charge(t as nat, mc as nat, m.active as nat);
        law_charge_is_time_over_entitlement(t as nat, mc as nat, m.active as nat);
        let w: int = mc * m.active;
        let x: int = n.classes[c].pass - m.classes[c].pass;
        assert(w * x <= w * q) by (nonlinear_arith)
            requires
                0 <= x <= q,
                w == mc * m.active,
                mc >= 0,
                m.active >= 0,
        ;
    }
}

/// An admitted poll that leaves its future pending pays for its time and gives its
/// slot back. A task that was woken meanwhile goes to the end of its queue, or, if it
/// is direct, is woken. Then the free slots are filled. Returns the scheduler after
/// the payment, and right before the slots are filled.
pub proof fn law_pending_polls_pay_and_requeue(
    m: SchedulerModel,
    id: u64,
    exec_time: Option<u64>,
    now: u64,
) -> (r: (SchedulerModel, SchedulerModel))
    requires
        m.wf(),
        m.tasks.contains_key(id),
        m.tasks[id].phase is Polling || m.tasks[id].phase is PollingNotified,
        m.tasks[id].phase is PollingNotified && id >= m.direct_before ==> m.class_of(
            id,
        ).stats.polls + m.class_of(id).stats.queued < u64::MAX && m.class_of(id).queue.len()
            < usize::MAX,
    ensures
        ({
            let paid = r.0;
            let o = r.1;
            let n = m.finish_pending(id, exec_time, now).0;
            let woken = m.finish_pending(id, exec_time, now).1;
            let c = m.tasks[id].class@;
            &&& is_paid(m, paid, id, exec_time)
            &&& paid.classes[c].stats.completed == m.classes[c].stats.completed
            &&& paid.classes[c].stats.cancelled == m.classes[c].stats.cancelled
            &&& o.consistent()
            &&& n == o.dispatch(now).0
            &&& same_elsewhere(paid, o, id, c)
            &&& o.active == paid.active
            &&& o.virtual_time == paid.virtual_time
            &&& o.tasks.contains_key(id)
            &&& o.tasks[id].class == m.tasks[id].class
            &&& o.tasks[id].has_waker == m.tasks[id].has_waker
            &&& o.tasks[id].created == m.tasks[id].created
            &&& o.tasks[id].admitted == m.tasks[id].admitted
            &&& if m.tasks[id].phase is PollingNotified && id >= m.direct_before {
                let before = paid.classes[c];
                let after = o.classes[c];
                &&& woken == o.dispatch(now).1
                &&& o.tasks[id].phase is Queued
                &&& o.tasks[id].queued_at == Some(now)
                &&& after.queue.len() == before.queue.len() + 1
                &&& after.queue[before.queue.len() as int] == id
                &&& forall|i: int|
                    0 <= i < before.queue.len() ==> after.queue[i] == before.queue[i]
                &&& after.pass == (if before.queue.len() == 0 && before.pass < m.virtual_time {
                    m.virtual_time
                } else {
                    before.pass
                })
                &&& after.millicores == before.millicores
                &&& after.stats == (ClassStats {
                    queued: (before.stats.queued + 1) as usize,
                    ..before.stats
                })
                &&& after.stats.queued == after.queue.len()
            } else {
                &&& o.classes[c] == paid.classes[c]
                &&& o.tasks[id].phase is Idle
                &&& if m.tasks[id].phase is PollingNotified && m.tasks[id].has_waker {
                    woken == o.dispatch(now).1.push(id)
                } else {
                    woken == o.dispatch(now).1
                }
            }
        }),
{
    let paid = m.release(id, exec_time);
    let c = m.tasks[id].class@;
    lemma_is_paid(m, id, exec_time);
    lemma_after(m, Operation::FinishPending { id, exec_time, now });
    if m.tasks[id].phase is PollingNotified && !m.is_direct(id) {
        let o = paid.enqueue(id, now);
        lemma_enqueue(paid, id, now);
        assert(o.classes.dom() =~= paid.classes.dom());
        assert(o.classes.contains_key(c));
        assert(o.class_ok(c));
        (paid, o)
    } else {
        let woken = m.finish_pending(id, exec_time, now).1;
        let admitted = paid.dispatch(now).1;
        if m.tasks[id].phase is PollingNotified {
            if m.tasks[id].has_waker {
                assert(woken =~= admitted.push(id));
            } else {
                assert(woken =~= admitted);
            }
        }
        (paid, paid)
    }
}

/// A direct poll that leaves its future pending changes nothing.
pub proof fn law_direct_polls_pay_nothing(
    m: SchedulerModel,
    id: u64,
    exec_time: Option<u64>,
    now: u64,
)
    requires
        m.wf(),
        m.tasks.contains_key(id),
        m.tasks[id].phase is Idle,
    ensures
        m.finish_pending(id, exec_time, now).0 == m,
        m.finish_pending(id, exec_time, now).1.len() == 0,
{
}

/// A poll that completes its future is counted, and the task goes. If the poll was
/// admitted, it pays for its time and gives its slot back, and the free slots are
/// filled. Returns the scheduler right before that.
pub proof fn law_ready_polls_pay_and_go(
    m: SchedulerModel,
    id: u64,
    exec_time: Option<u64>,
    now: u64,
) -> (o: SchedulerModel)
    requires
        m.wf(),
        m.tasks.contains_key(id),
        m.tasks[id].phase is Polling || m.tasks[id].phase is PollingNotified || (
        m.tasks[id].phase is Idle && id < m.direct_before),
    ensures
        ({
            let n = m.finish_ready(id, exec_time, now).0;
            let woken = m.finish_ready(id, exec_time, now).1;
            let c = m.tasks[id].class@;
            &&& !o.tasks.contains_key(id)
            &&& o.classes[c].stats.completed == m.classes[c].stats.completed + 1
            &&& o.classes[c].stats.cancelled == m.classes[c].stats.cancelled
            &&& if m.tasks[id].phase is Idle {
                &&& n == o
                &&& woken.len() == 0
                &&& same_elsewhere(m, o, id, c)
                &&& o.active == m.active
                &&& o.virtual_time == m.virtual_time
                &&& o.classes[c].pass == m.classes[c].pass
                &&& o.classes[c].millicores == m.classes[c].millicores
                &&& o.classes[c].queue == m.classes[c].queue
                &&& o.classes[c].stats == (ClassStats {
                    completed: o.classes[c].stats.completed,
                    ..m.classes[c].stats
                })
            } else {
                &&& is_paid(m, o, id, exec_time)
                &&& o.consistent()
                &&& n == o.dispatch(now).0
                &&& woken == o.dispatch(now).1
            }
        }),
{
    let op = Operation::FinishReady { id, exec_time, now };
    lemma_after(m, op);
    let o = m.before_dispatch(op);
    let c = m.tasks[id].class@;
    assert(m.class_ok(c));
    if !(m.tasks[id].phase is Idle) {
        lemma_is_paid(m, id, exec_time);
        let paid = m.release(id, exec_time);
        lemma_go(paid, id);
        assert(o == paid.complete(id));
        assert(o.classes.dom() =~= m.classes.dom());
        assert forall|x: u64| x != id implies #[trigger] o.tasks.contains_key(x)
            == m.tasks.contains_key(x) by {
            assert(paid.tasks.contains_key(x) == m.tasks.contains_key(x));
        }
    } else {
        lemma_go(m, id);
        assert(o.classes.dom() =~= m.classes.dom());
    }
    o
}

/// A future that is dropped is counted as cancelled, and its task goes; nobody is
/// charged. One that waited leaves its place in the queue, and nobody else moves.
/// One that held a slot gives it back, and the free slots are filled. Returns the
/// scheduler right before that.
pub proof fn law_dropped_futures_go(m: SchedulerModel, id: u64, now: u64) -> (o: SchedulerModel)
    requires
        m.wf(),
    ensures
        ({
            let n = m.cancel(id, now).0;
            let woken = m.cancel(id, now).1;
            let c = m.tasks[id].class@;
            let before = m.classes[c];
            let after = o.classes[c];
            if !m.tasks.contains_key(id) {
                n == m && o == m && woken.len() == 0
            } else {
                &&& same_elsewhere(m, o, id, c)
                &&& !o.tasks.contains_key(id)
                &&& o.virtual_time == m.virtual_time
                &&& after.pass == before.pass
                &&& after.millicores == before.millicores
                &&& after.stats.cancelled == before.stats.cancelled + 1
                &&& after.stats == (ClassStats {
                    cancelled: after.stats.cancelled,
                    queued: after.stats.queued,
                    ..before.stats
                })
                &&& after.stats.queued == after.queue.len()
                &&& if m.tasks[id].phase is Queued {
                    let i = before.queue.index_of(id);
                    &&& n == o
                    &&& woken.len() == 0
                    &&& o.active == m.active
                    &&& before.queue.contains(id)
                    &&& after.queue == before.queue.remove(i)
                } else {
                    &&& after.queue == before.queue
                    &&& if m.tasks[id].phase is Idle {
                        n == o && woken.len() == 0 && o.active == m.active
                    } else {
                        &&& o.consistent()
                        &&& o.active == m.active - 1
                        &&& n == o.dispatch(now).0
                        &&& woken == o.dispatch(now).1
                    }
                }
            }
        }),
{
    let op = Operation::Cancel { id, now };
    lemma_after(m, op);
    let o = m.before_dispatch(op);
    if m.tasks.contains_key(id) {
        let c = m.tasks[id].class@;
        assert(m.class_ok(c) && m.queue_ok(c));
        assert(o.classes.dom() =~= m.classes.dom());
        match m.phase(id) {
            TaskPhase::Idle => {
                lemma_go(m, id);
                law_dispatch_stops(o, now);
            },
            TaskPhase::Queued => {
                lemma_withdraw(m, id);
                lemma_go(m.withdraw(id), id);
                lemma_without_is_remove(m.classes[c].queue, id);
                assert(m.backlogged(c));
                law_dispatch_stops(o, now);
                lemma_without(m.classes[c].queue, id);
            },
            _ => {
                lemma_free_slot(m, id);
                lemma_go(m.free_slot(id), id);
            },
        }
    } else {
        law_dispatch_stops(m, now);
    }
    o
}

/// Taking a task out of a queue leaves the others where they were.
proof fn lemma_without_is_remove(queue: Seq<u64>, id: u64)
    requires
        queue.no_duplicates(),
        queue.contains(id),
    ensures
        without(queue, id) == queue.remove(queue.index_of(id)),
    decreases queue.len(),
{
    reveal(Seq::filter);
    let rest = queue.drop_last();
    let i = queue.index_of(id);
    if queue.last() == id {
        assert(i == queue.len() - 1);
        assert(!rest.contains(id));
        lemma_without(rest, id);
        assert(queue.remove(i) =~= rest);
    } else {
        assert(rest[i] == id);
        lemma_without_is_remove(rest, id);
        assert(rest.index_of(id) == i);
        assert(queue.remove(i) =~= rest.remove(i).push(queue.last()));
    }
}

/// A new entitlement changes the entitlement of its class, and sets its pass to the
/// lowest of all classes, or, if there are none, to the virtual time. A class that
/// was not known has done nothing yet. Nothing else changes, and nobody is woken.
pub proof fn law_entitling_changes_one_class(
    m: SchedulerModel,
    c: u32,
    entitlement: Entitlement,
    now: u64,
)
    requires
        m.wf(),
        entitlement.valid(),
    ensures
        ({
            let n = m.entitle(c, entitlement).dispatch(now).0;
            let woken = m.entitle(c, entitlement).dispatch(now).1;
            let after = n.classes[c];
            &&& woken.len() == 0
            &&& n.max_concurrent_polls == m.max_concurrent_polls
            &&& n.active == m.active
            &&& n.virtual_time == m.virtual_time
            &&& n.enabled == m.enabled
            &&& n.next_task == m.next_task
            &&& n.direct_before == m.direct_before
            &&& n.tasks == m.tasks
            &&& forall|d: u32|
                d != c ==> #[trigger] n.classes.contains_key(d) == m.classes.contains_key(d)
            &&& forall|d: u32| #[trigger]
                m.classes.contains_key(d) && d != c ==> n.classes[d] == m.classes[d]
            &&& n.classes.contains_key(c)
            &&& after.millicores == entitlement.millicores
            &&& after.stats.weight == entitlement.weight
            &&& forall|d: u32| #[trigger]
                m.classes.contains_key(d) ==> after.pass <= m.classes[d].pass
            &&& (exists|d: u32| #[trigger]
                m.classes.contains_key(d) && m.classes[d].pass == after.pass) || (after.pass
                == m.virtual_time && forall|d: u32| !#[trigger] m.classes.contains_key(d))
            &&& if m.classes.contains_key(c) {
                &&& after.queue == m.classes[c].queue
                &&& after.stats == (ClassStats {
                    weight: entitlement.weight,
                    ..m.classes[c].stats
                })
            } else {
                &&& after.queue.len() == 0
                &&& after.stats == (ClassStats {
                    weight: entitlement.weight,
                    queued: 0,
                    tasks: 0,
                    wakes: 0,
                    polls: 0,
                    completed: 0,
                    cancelled: 0,
                    total_admission_wait: 0,
                    total_exec_time: 0,
                    admitted: 0,
                })
            }
        }),
{
    let o = m.entitle(c, entitlement);
    lemma_entitle(m, c, entitlement);
    assert forall|d: u32| o.backlogged(d) implies m.backlogged(d) by {}
    law_dispatch_stops(o, now);
    lemma_lowest_pass_bound(m);
    lemma_lowest_pass_is_there(m);
}

/// The lowest pass is that of a class, if there is one.
proof fn lemma_lowest_pass_is_there(m: SchedulerModel)
    requires
        m.classes.dom().finite(),
    ensures
        (exists|d: u32| #[trigger]
            m.classes.contains_key(d) && m.classes[d].pass == m.lowest_pass()) || (m.lowest_pass()
            == m.virtual_time && forall|d: u32| !#[trigger] m.classes.contains_key(d)),
{
    if exists|pass: u128| m.is_lowest_pass(pass) {
        let pass = choose|pass: u128| m.is_lowest_pass(pass);
        assert(m.is_lowest_pass(pass));
    } else {
        lemma_lowest_pass_bound(m);
        if exists|d: u32| m.classes.contains_key(d) {
            let d = choose|d: u32| m.classes.contains_key(d);
            assert(m.classes.dom().contains(d));
            let f = lemma_lowest_of(m, m.classes.dom());
            assert(m.classes.contains_key(f));
            assert forall|c: u32| #[trigger] m.classes.contains_key(c) implies m.classes[f].pass
                <= m.classes[c].pass by {
                assert(m.classes.dom().contains(c));
            }
            assert(m.is_lowest_pass(m.classes[f].pass));
        }
    }
}

/// A new limit changes the limit alone, and then the free slots are filled. Returns
/// the scheduler right before that.
pub proof fn law_limits_change_the_limit(
    m: SchedulerModel,
    max_concurrent_polls: usize,
    now: u64,
) -> (o: SchedulerModel)
    requires
        m.wf(),
        max_concurrent_polls > 0,
    ensures
        o.consistent(),
        o.max_concurrent_polls == max_concurrent_polls,
        o.active == m.active,
        o.virtual_time == m.virtual_time,
        o.enabled == m.enabled,
        o.next_task == m.next_task,
        o.direct_before == m.direct_before,
        o.classes == m.classes,
        o.tasks == m.tasks,
        m.limit(max_concurrent_polls).dispatch(now) == o.dispatch(now),
{
    lemma_limit(m, max_concurrent_polls);
    m.limit(max_concurrent_polls)
}

/// Enabling changes nothing but that new futures are scheduled. Disabling empties
/// the queues, makes those that waited idle and every live task direct, and changes
/// nothing else; the tasks to wake are those that waited and have an executor to
/// wake.
pub proof fn law_enabling_and_disabling(m: SchedulerModel)
    requires
        m.wf(),
    ensures
        ({
            let n = m.enable();
            &&& n.enabled
            &&& n.max_concurrent_polls == m.max_concurrent_polls
            &&& n.active == m.active
            &&& n.virtual_time == m.virtual_time
            &&& n.next_task == m.next_task
            &&& n.direct_before == m.direct_before
            &&& n.classes == m.classes
            &&& n.tasks == m.tasks
        }),
        ({
            let n = m.disable();
            &&& !n.enabled
            &&& n.max_concurrent_polls == m.max_concurrent_polls
            &&& n.active == m.active
            &&& n.virtual_time == m.virtual_time
            &&& n.next_task == m.next_task
            &&& n.direct_before == m.next_task
            &&& n.classes.dom() == m.classes.dom()
            &&& n.tasks.dom() == m.tasks.dom()
            &&& forall|c: u32| #[trigger]
                m.classes.contains_key(c) ==> {
                    &&& n.classes[c].pass == m.classes[c].pass
                    &&& n.classes[c].millicores == m.classes[c].millicores
                    &&& n.classes[c].queue.len() == 0
                    &&& n.classes[c].stats == (ClassStats { queued: 0, ..m.classes[c].stats })
                }
            &&& forall|id: u64| #[trigger]
                m.tasks.contains_key(id) ==> {
                    &&& id < n.direct_before
                    &&& n.tasks[id].class == m.tasks[id].class
                    &&& n.tasks[id].has_waker == m.tasks[id].has_waker
                    &&& n.tasks[id].created == m.tasks[id].created
                    &&& n.tasks[id].admitted == m.tasks[id].admitted
                    &&& if m.tasks[id].phase is Queued {
                        n.tasks[id].phase is Idle && n.tasks[id].queued_at is None
                    } else {
                        n.tasks[id] == m.tasks[id]
                    }
                }
        }),
        forall|id: u64| #[trigger]
            m.drained().contains(id) <==> m.tasks.contains_key(id) && m.tasks[id].phase is Queued
                && m.tasks[id].has_waker,
{
    assert(m.disable().classes.dom() =~= m.classes.dom());
    assert(m.disable().tasks.dom() =~= m.tasks.dom());
}

/// As many slots are taken as there are tasks that are admitted or being polled, and
/// a queue holds the waiting tasks of its class, each once.
pub proof fn law_slots_and_queues_are_true(m: SchedulerModel)
    requires
        m.wf(),
    ensures
        m.active == m.tasks.dom().filter(
            |id: u64|
                m.tasks[id].phase is Admitted || m.tasks[id].phase is Polling
                    || m.tasks[id].phase is PollingNotified,
        ).len(),
        forall|c: u32| #[trigger]
            m.classes.contains_key(c) ==> m.classes[c].queue.no_duplicates()
                && m.classes[c].stats.queued == m.classes[c].queue.len(),
        forall|c: u32, id: u64|
            m.classes.contains_key(c) ==> (#[trigger] m.classes[c].queue.contains(id)
                <==> m.tasks.contains_key(id) && m.tasks[id].phase is Queued
                && m.tasks[id].class@ == c),
{
    assert(m.holders() =~= m.tasks.dom().filter(
        |id: u64|
            m.tasks[id].phase is Admitted || m.tasks[id].phase is Polling
                || m.tasks[id].phase is PollingNotified,
    ));
    assert forall|c: u32| #[trigger] m.classes.contains_key(c) implies
        m.classes[c].queue.no_duplicates() && m.classes[c].stats.queued
        == m.classes[c].queue.len() by {
        assert(m.queue_ok(c) && m.class_ok(c));
    }
    assert forall|c: u32, id: u64| m.classes.contains_key(c) implies (
    #[trigger] m.classes[c].queue.contains(id) <==> m.tasks.contains_key(id)
        && m.tasks[id].phase is Queued && m.tasks[id].class@ == c) by {
        assert(m.queue_ok(c));
        if m.classes[c].queue.contains(id) {
            let i = m.classes[c].queue.index_of(id);
            assert(m.classes[c].queue[i] == id);
        }
        if m.tasks.contains_key(id) && m.tasks[id].phase is Queued {
            assert(m.class_of(id).queue.contains(id));
        }
    }
}

/// New weights for several classes leave all tasks and queues as they are.
proof fn lemma_entitle_all_keeps(m: SchedulerModel, weights: Seq<(TaskClass, u32)>)
    ensures
        ({
            let n = m.entitle_all(weights);
            &&& n.max_concurrent_polls == m.max_concurrent_polls
            &&& n.active == m.active
            &&& n.virtual_time == m.virtual_time
            &&& n.enabled == m.enabled
            &&& n.next_task == m.next_task
            &&& n.direct_before == m.direct_before
            &&& n.tasks == m.tasks
            &&& forall|d: u32| #[trigger]
                m.classes.contains_key(d) ==> n.classes.contains_key(d) && n.classes[d].queue
                    == m.classes[d].queue
            &&& forall|d: u32| #[trigger]
                n.classes.contains_key(d) && !m.classes.contains_key(d)
                    ==> n.classes[d].queue.len() == 0
        }),
    decreases weights.len(),
{
    if weights.len() > 0 {
        let rest = weights.drop_last();
        lemma_entitle_all_keeps(m, rest);
        let r = m.entitle_all(rest);
        let n = m.entitle_all(weights);
        assert forall|d: u32| #[trigger] n.classes.contains_key(d) && !m.classes.contains_key(
            d,
        ) implies n.classes[d].queue.len() == 0 by {
            if d != weights.last().0@ {
                assert(r.classes.contains_key(d));
            } else if r.classes.contains_key(d) {
                assert(r.classes[d].queue.len() == 0);
            }
        }
    }
}

/// New weights for several classes leave everything else as it is, wake nobody, and
/// leave the classes that are not listed as they are.
pub proof fn law_weights_change_nothing_else(
    m: SchedulerModel,
    weights: Seq<(TaskClass, u32)>,
    now: u64,
)
    requires
        m.wf(),
        forall|i: int| 0 <= i < weights.len() ==> (#[trigger] weights[i]).1 > 0,
    ensures
        ({
            let n = m.entitle_all(weights).dispatch(now).0;
            let woken = m.entitle_all(weights).dispatch(now).1;
            &&& woken.len() == 0
            &&& n.max_concurrent_polls == m.max_concurrent_polls
            &&& n.active == m.active
            &&& n.virtual_time == m.virtual_time
            &&& n.enabled == m.enabled
            &&& n.next_task == m.next_task
            &&& n.direct_before == m.direct_before
            &&& n.tasks == m.tasks
            &&& forall|c: u32|
                (forall|i: int| 0 <= i < weights.len() ==> (#[trigger] weights[i]).0@ != c) ==> {
                    &&& #[trigger] n.classes.contains_key(c) == m.classes.contains_key(c)
                    &&& m.classes.contains_key(c) ==> n.classes[c] == m.classes[c]
                }
        }),
{
    let o = m.entitle_all(weights);
    lemma_entitle_all(m, weights);
    lemma_entitle_all_keeps(m, weights);
    assert forall|d: u32| o.backlogged(d) implies m.backlogged(d) by {
        assert(o.classes.contains_key(d));
    }
    law_dispatch_stops(o, now);
    assert forall|c: u32|
        (forall|i: int| 0 <= i < weights.len() ==> (#[trigger] weights[i]).0@ != c) implies {
        &&& #[trigger] o.classes.contains_key(c) == m.classes.contains_key(c)
        &&& m.classes.contains_key(c) ==> o.classes[c] == m.classes[c]
    } by {
        law_unlisted_classes_stay(m, weights, c);
    }
}

/// Of several new weights for a class the last counts. The class goes on at the
/// lowest pass that there was, or, if there was no class, at the virtual time. One
/// that was not known has done nothing yet.
pub proof fn law_listed_weights_count(
    m: SchedulerModel,
    weights: Seq<(TaskClass, u32)>,
    i: int,
    now: u64,
)
    requires
        m.wf(),
        forall|j: int| 0 <= j < weights.len() ==> (#[trigger] weights[j]).1 > 0,
        0 <= i < weights.len(),
        forall|j: int| i < j < weights.len() ==> (#[trigger] weights[j]).0@ != weights[i].0@,
    ensures
        ({
            let n = m.entitle_all(weights).dispatch(now).0;
            let c = weights[i].0@;
            let after = n.classes[c];
            &&& n.classes.contains_key(c)
            &&& after.millicores == weights[i].1 * 1000
            &&& after.stats.weight == weights[i].1
            &&& forall|d: u32| #[trigger]
                m.classes.contains_key(d) ==> after.pass <= m.classes[d].pass
            &&& (exists|d: u32| #[trigger]
                m.classes.contains_key(d) && m.classes[d].pass == after.pass) || (after.pass
                == m.virtual_time && forall|d: u32| !#[trigger] m.classes.contains_key(d))
            &&& if m.classes.contains_key(c) {
                &&& after.queue == m.classes[c].queue
                &&& after.stats == (ClassStats { weight: weights[i].1, ..m.classes[c].stats })
            } else {
                &&& after.queue.len() == 0
                &&& after.stats == (ClassStats {
                    weight: weights[i].1,
                    queued: 0,
                    tasks: 0,
                    wakes: 0,
                    polls: 0,
                    completed: 0,
                    cancelled: 0,
                    total_admission_wait: 0,
                    total_exec_time: 0,
                    admitted: 0,
                })
            }
        }),
{
    let o = m.entitle_all(weights);
    lemma_entitle_all(m, weights);
    lemma_entitle_all_keeps(m, weights);
    assert forall|d: u32| o.backlogged(d) implies m.backlogged(d) by {
        assert(o.classes.contains_key(d));
    }
    law_dispatch_stops(o, now);
    law_listed_classes_are_entitled(m, weights, i);
    lemma_lowest_pass_bound(m);
    lemma_lowest_pass_is_there(m);
    let weight = weights[i].1;
    assert(weight * 1000 <= u64::MAX);
}

/// What an operation does to a queue before the free slots are filled: nobody
/// moves, or one task joins at the end, or one goes.
proof fn lemma_queue_before(m: SchedulerModel, op: Operation, c: u32)
    requires
        m.wf(),
        m.allows(op),
        m.classes.contains_key(c),
    ensures
        m.before_dispatch(op).classes.contains_key(c),
        ({
            let before = m.classes[c].queue;
            let after = m.before_dispatch(op).classes[c].queue;
            ||| after == before
            ||| after.len() == 0
            ||| after.len() > 0 && after == before.push(after.last()) && !before.contains(
                after.last(),
            )
            ||| exists|k: int| 0 <= k < before.len() && after == #[trigger] before.remove(k)
        }),
{
    assert(m.queue_ok(c));
    let before = m.classes[c].queue;
    match op {
        Operation::BeginPoll { id, .. } | Operation::Notify { id, .. }
        | Operation::FinishPending { id, .. } => {
            if before.contains(id) {
                assert(before[before.index_of(id)] == id);
            }
        },
        Operation::Cancel { id, .. } => {
            if m.tasks.contains_key(id) && m.tasks[id].phase is Queued && m.tasks[id].class@
                == c {
                lemma_without_is_remove(before, id);
            }
        },
        Operation::EntitleAll { weights, .. } => {
            lemma_entitle_all_keeps(m, weights);
        },
        _ => {},
    }
}

/// Nobody is overtaken in a queue: whatever happens, of two tasks of a class that
/// wait, the one that stood in front of the other, or that waited when the other did
/// not, stands in front of it.
pub proof fn law_nobody_is_overtaken(m: SchedulerModel, op: Operation, c: u32, a: u64, b: u64)
    requires
        m.wf(),
        m.allows(op),
        m.classes.contains_key(c),
        a != b,
        m.classes[c].queue.contains(a),
        m.classes[c].queue.contains(b) ==> m.classes[c].queue.index_of(a)
            < m.classes[c].queue.index_of(b),
        m.after(op).classes[c].queue.contains(a),
        m.after(op).classes[c].queue.contains(b),
    ensures
        m.after(op).classes[c].queue.index_of(a) < m.after(op).classes[c].queue.index_of(b),
{
    let o = m.before_dispatch(op);
    let n = m.after(op);
    lemma_after(m, op);
    lemma_queue_before(m, op, c);
    law_dispatch_only_admits(o, moment(op));
    assert(class_only_admits(o, n, c));
    let q = m.classes[c].queue;
    let p = o.classes[c].queue;
    let r = n.classes[c].queue;
    assert(m.queue_ok(c));
    assert(o.queue_ok(c));
    let gone = p.len() - r.len();
    let i = r.index_of(a) + gone;
    let j = r.index_of(b) + gone;
    assert(p[i] == a && p[j] == b);
    if p == q {
        assert(q[i] == a && q[j] == b);
        assert(q.contains(b));
    } else if p == q.push(p.last()) && !q.contains(p.last()) {
        assert(q[i] == a);
        if j < q.len() {
            assert(q[j] == b);
            assert(q.contains(b));
        }
    } else {
        let k = choose|k: int| 0 <= k < q.len() && p == #[trigger] q.remove(k);
        let x = if i < k {
            i
        } else {
            i + 1
        };
        let y = if j < k {
            j
        } else {
            j + 1
        };
        assert(q[x] == a && q[y] == b);
        assert(q.contains(b));
    }
}

/// What a handle may be used for: it was made by the scheduler if its identifier has
/// been given out and its class is that of its task; a poll of it may end if one may
/// be under way; and it can queue unless its class has counted as many admissions as
/// fit. A handle without a task may be used for anything.
pub proof fn law_what_handles_are_good_for(
    m: SchedulerModel,
    handle: HandleModel,
    phase: TaskPhase,
)
    requires
        !(phase is Finished),
    ensures
        handle.task is None ==> m.issued(handle) && m.may_finish(handle) && m.can_queue(
            handle,
            phase,
        ),
        handle.task matches Some(id) ==> {
            &&& m.issued(handle) <==> id < m.next_task && m.classes.contains_key(handle.class)
                && (!m.tasks.contains_key(id) || m.tasks[id].class@ == handle.class)
            &&& m.may_finish(handle) <==> m.tasks.contains_key(id) && (
            m.tasks[id].phase is Polling || m.tasks[id].phase is PollingNotified || (
            m.tasks[id].phase is Idle && id < m.direct_before))
            &&& m.can_queue(handle, phase) <==> !m.tasks.contains_key(id) || m.tasks[id].phase
                != phase || id < m.direct_before || m.classes[handle.class].stats.polls
                + m.classes[handle.class].stats.queued < u64::MAX
        },
{
}

} // verus!
