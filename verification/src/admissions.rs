//! What the filling of free slots comes to, as it shows in tasks, queues and
//! counters.

use vstd::prelude::*;

use crate::invariants::{lemma_dispatch, lemma_serve};
use crate::laws::{class_only_admits, law_dispatch_only_admits, law_woken_are_admitted};
use crate::model::{lemma_next_class, lemma_serve_shrinks, SchedulerModel};

verus! {

/// The sum of what each task of a batch adds.
pub open spec fn tally(woken: Seq<u64>, adds: spec_fn(u64) -> nat) -> nat
    decreases woken.len(),
{
    if woken.len() == 0 {
        0
    } else {
        adds(woken[0]) + tally(woken.skip(1), adds)
    }
}

/// What adds the same to each task of a batch adds up to the same.
proof fn lemma_tally_same(woken: Seq<u64>, f: spec_fn(u64) -> nat, g: spec_fn(u64) -> nat)
    requires
        forall|id: u64| #[trigger] woken.contains(id) ==> f(id) == g(id),
    ensures
        tally(woken, f) == tally(woken, g),
    decreases woken.len(),
{
    if woken.len() > 0 {
        let rest = woken.skip(1);
        assert(woken.contains(woken[0]));
        assert forall|id: u64| #[trigger] rest.contains(id) implies f(id) == g(id) by {
            assert(woken[rest.index_of(id) + 1] == id);
            assert(woken.contains(id));
        }
        lemma_tally_same(rest, f, g);
    }
}

/// What a task adds to the polls of class `c` when it is admitted: one.
pub open spec fn one_poll(m: SchedulerModel, c: u32) -> spec_fn(u64) -> nat {
    |id: u64|
        if m.tasks[id].class@ == c {
            1
        } else {
            0
        }
}

/// What a task adds to the admitted tasks of class `c`: one, the first time.
pub open spec fn one_task(m: SchedulerModel, c: u32) -> spec_fn(u64) -> nat {
    |id: u64|
        if m.tasks[id].class@ == c && !m.tasks[id].admitted {
            1
        } else {
            0
        }
}

/// What a task adds to the admission wait of class `c`: the time since it entered
/// its queue, the first time that it is admitted.
pub open spec fn one_wait(m: SchedulerModel, c: u32, now: u64) -> spec_fn(u64) -> nat {
    |id: u64|
        if m.tasks[id].class@ == c && !m.tasks[id].admitted {
            let since = match m.tasks[id].queued_at {
                Some(start) => start,
                None => m.tasks[id].created,
            };
            if since <= now {
                (now - since) as nat
            } else {
                0
            }
        } else {
            0
        }
}

/// Admissions are counted one by one: for each task that is admitted, its class
/// counts one poll, and, if it is the first time, one task and the time since the
/// task entered the queue.
pub proof fn law_admissions_are_counted(m: SchedulerModel, now: u64, c: u32)
    requires
        m.consistent(),
        m.classes.contains_key(c),
    ensures
        m.dispatch(now).0.classes[c].stats.polls == m.classes[c].stats.polls + tally(
            m.dispatch(now).1,
            one_poll(m, c),
        ),
        m.dispatch(now).0.classes[c].stats.admitted == m.classes[c].stats.admitted + tally(
            m.dispatch(now).1,
            one_task(m, c),
        ),
        m.dispatch(now).0.classes[c].stats.total_admission_wait
            == m.classes[c].stats.total_admission_wait + tally(
            m.dispatch(now).1,
            one_wait(m, c, now),
        ),
    decreases m.waiting().len(),
{
    if m.active < m.max_concurrent_polls && m.next_class() is Some {
        let d = m.next_class()->0;
        let s = m.serve(d, now);
        let id = m.classes[d].queue[0];
        lemma_next_class(m, d);
        lemma_serve(m, d, now);
        lemma_serve_shrinks(m, d, now);
        law_admissions_are_counted(s, now, c);
        law_woken_are_admitted(s, now);
        assert(m.queue_ok(d) && m.class_ok(d));
        let rest = s.dispatch(now).1;
        let all = m.dispatch(now).1;
        assert(!rest.contains(id));
        assert forall|x: u64| #[trigger] rest.contains(x) implies m.tasks[x] == s.tasks[x] by {}
        lemma_tally_same(rest, one_poll(m, c), one_poll(s, c));
        lemma_tally_same(rest, one_task(m, c), one_task(s, c));
        lemma_tally_same(rest, one_wait(m, c, now), one_wait(s, c, now));
        if m.tasks[id].has_waker {
            assert(all == seq![id] + rest);
            assert(all.skip(1) =~= rest);
        } else {
            assert(all =~= rest);
        }
    }
}

/// Filling the slots touches the waiting tasks and the counters of admissions, and
/// nothing else. A task that leaves its queue is admitted, or is idle again if
/// there is no executor to wake for it.
pub proof fn law_admissions_touch_nothing_else(m: SchedulerModel, now: u64)
    requires
        m.consistent(),
    ensures
        m.dispatch(now).0.max_concurrent_polls == m.max_concurrent_polls,
        m.dispatch(now).0.enabled == m.enabled,
        m.dispatch(now).0.next_task == m.next_task,
        m.dispatch(now).0.direct_before == m.direct_before,
        m.dispatch(now).0.classes.dom() == m.classes.dom(),
        m.dispatch(now).0.tasks.dom() == m.tasks.dom(),
        forall|id: u64| #[trigger]
            m.tasks.contains_key(id) ==> {
                let before = m.tasks[id];
                let after = m.dispatch(now).0.tasks[id];
                &&& after.class == before.class
                &&& after.has_waker == before.has_waker
                &&& after.created == before.created
                &&& if after.phase == before.phase {
                    after == before
                } else {
                    &&& before.phase is Queued
                    &&& if before.has_waker {
                        after.phase is Admitted && after.queued_at is None && after.admitted
                    } else {
                        &&& after.phase is Idle
                        &&& after.queued_at == before.queued_at
                        &&& after.admitted == before.admitted
                    }
                }
            },
        forall|c: u32| #[trigger]
            m.classes.contains_key(c) ==> {
                let before = m.classes[c];
                let after = m.dispatch(now).0.classes[c];
                &&& after.pass == before.pass
                &&& after.millicores == before.millicores
                &&& after.stats.weight == before.stats.weight
                &&& after.stats.tasks == before.stats.tasks
                &&& after.stats.wakes == before.stats.wakes
                &&& after.stats.completed == before.stats.completed
                &&& after.stats.cancelled == before.stats.cancelled
                &&& after.stats.total_exec_time == before.stats.total_exec_time
                &&& after.stats.queued == after.queue.len()
                &&& after.queue.len() <= before.queue.len()
                &&& after.queue == before.queue.subrange(
                    before.queue.len() - after.queue.len(),
                    before.queue.len() as int,
                )
            },
{
    let n = m.dispatch(now).0;
    law_dispatch_only_admits(m, now);
    lemma_dispatch(m, now);
    assert forall|c: u32| #[trigger] m.classes.contains_key(c) implies {
        let before = m.classes[c];
        let after = n.classes[c];
        &&& after.stats.queued == after.queue.len()
        &&& after.millicores == before.millicores
        &&& after.stats.weight == before.stats.weight
        &&& after.queue == before.queue.subrange(
            before.queue.len() - after.queue.len(),
            before.queue.len() as int,
        )
    } by {
        assert(n.classes.contains_key(c));
        assert(n.class_ok(c));
        assert(class_only_admits(m, n, c));
        assert(n.classes[c].entitlement() == m.classes[c].entitlement());
    }
}

/// The slots are filled as far as they can be: each task to wake takes one slot,
/// which was free, and in the end all are taken or nobody waits.
pub proof fn law_free_slots_are_filled(m: SchedulerModel, now: u64)
    requires
        m.consistent(),
    ensures
        m.dispatch(now).0.active == m.active + m.dispatch(now).1.len(),
        m.dispatch(now).1.len() > 0 ==> m.dispatch(now).0.active <= m.max_concurrent_polls,
        m.dispatch(now).1.no_duplicates(),
        forall|id: u64| #[trigger]
            m.dispatch(now).1.contains(id) <==> {
                &&& m.tasks.contains_key(id)
                &&& m.tasks[id].phase is Queued
                &&& m.dispatch(now).0.tasks[id].phase is Admitted
            },
        m.dispatch(now).0.active < m.max_concurrent_polls ==> forall|id: u64| #[trigger]
            m.tasks.contains_key(id) ==> !(m.dispatch(now).0.tasks[id].phase is Queued),
{
    let n = m.dispatch(now).0;
    law_woken_are_admitted(m, now);
    law_dispatch_only_admits(m, now);
    lemma_dispatch(m, now);
    if n.active < m.max_concurrent_polls {
        assert forall|id: u64| #[trigger] m.tasks.contains_key(id) implies !(
        n.tasks[id].phase is Queued) by {
            assert(n.tasks.contains_key(id));
            if n.tasks[id].phase is Queued {
                assert(n.backlogged(n.tasks[id].class@));
            }
        }
    }
}

/// Classes are served by their passes, and between equal passes by their
/// identifiers: of two tasks that are admitted, the one of the class that comes
/// first is admitted first, and no class is served while one that comes before it
/// is left waiting.
pub proof fn law_lower_passes_come_first(m: SchedulerModel, now: u64)
    requires
        m.consistent(),
    ensures
        forall|i: int, j: int|
            #![trigger m.dispatch(now).1[i], m.dispatch(now).1[j]]
            0 <= i < j < m.dispatch(now).1.len() ==> {
                let a = m.tasks[m.dispatch(now).1[i]].class@;
                let b = m.tasks[m.dispatch(now).1[j]].class@;
                m.classes[a].pass < m.classes[b].pass || (m.classes[a].pass == m.classes[b].pass
                    && a <= b)
            },
        forall|i: int, d: u32|
            #![trigger m.dispatch(now).1[i], m.classes.contains_key(d)]
            0 <= i < m.dispatch(now).1.len() && m.classes.contains_key(d) && m.dispatch(
                now,
            ).0.classes[d].queue.len() > 0 ==> {
                let a = m.tasks[m.dispatch(now).1[i]].class@;
                m.classes[a].pass < m.classes[d].pass || (m.classes[a].pass == m.classes[d].pass
                    && a <= d)
            },
    decreases m.waiting().len(),
{
    let n = m.dispatch(now).0;
    let all = m.dispatch(now).1;
    if m.active < m.max_concurrent_polls && m.next_class() is Some {
        let c = m.next_class()->0;
        let s = m.serve(c, now);
        let id = m.classes[c].queue[0];
        let rest = s.dispatch(now).1;
        lemma_next_class(m, c);
        lemma_serve(m, c, now);
        lemma_serve_shrinks(m, c, now);
        law_lower_passes_come_first(s, now);
        law_woken_are_admitted(s, now);
        law_dispatch_only_admits(s, now);
        law_dispatch_only_admits(m, now);
        assert(m.queue_ok(c));
        assert forall|k: int| 0 <= k < rest.len() implies m.tasks[#[trigger] rest[k]]
            == s.tasks[rest[k]] && m.backlogged(m.tasks[rest[k]].class@) by {
            assert(rest.contains(rest[k]));
            assert(s.tasks.contains_key(rest[k]));
            assert(s.class_of(rest[k]).queue.contains(rest[k]));
            assert(m.tasks.contains_key(rest[k]));
        }
        let offset = all.len() - rest.len();
        assert forall|k: int| offset <= k < all.len() implies #[trigger] all[k] == rest[k
            - offset] by {}
        assert forall|i: int, j: int|
            #![trigger all[i], all[j]]
            0 <= i < j < all.len() implies {
            let a = m.tasks[all[i]].class@;
            let b = m.tasks[all[j]].class@;
            m.classes[a].pass < m.classes[b].pass || (m.classes[a].pass == m.classes[b].pass && a
                <= b)
        } by {
            assert(all[j] == rest[j - offset]);
            if i >= offset {
                assert(all[i] == rest[i - offset]);
            } else {
                assert(m.backlogged(m.tasks[rest[j - offset]].class@));
            }
        }
        assert forall|i: int, d: u32|
            #![trigger all[i], m.classes.contains_key(d)]
            0 <= i < all.len() && m.classes.contains_key(d) && n.classes[d].queue.len()
                > 0 implies {
            let a = m.tasks[all[i]].class@;
            m.classes[a].pass < m.classes[d].pass || (m.classes[a].pass == m.classes[d].pass && a
                <= d)
        } by {
            assert(s.classes.contains_key(d));
            assert(class_only_admits(m, n, d));
            if i >= offset {
                assert(all[i] == rest[i - offset]);
            } else {
                assert(m.backlogged(d));
            }
        }
    }
}

/// Within a class the task that entered the queue first is served first: whoever
/// is still waiting stood behind all those that have been served, and of two that
/// are admitted, the one that stood in front is admitted first.
pub proof fn law_first_come_first_served(m: SchedulerModel, now: u64, c: u32, p: int, q: int)
    requires
        m.consistent(),
        m.classes.contains_key(c),
        0 <= p < q < m.classes[c].queue.len(),
        !(m.dispatch(now).0.tasks[m.classes[c].queue[q]].phase is Queued),
    ensures
        !(m.dispatch(now).0.tasks[m.classes[c].queue[p]].phase is Queued),
        forall|i: int, j: int|
            #![trigger m.dispatch(now).1[i], m.dispatch(now).1[j]]
            0 <= i < m.dispatch(now).1.len() && 0 <= j < m.dispatch(now).1.len() && m.dispatch(
                now,
            ).1[i] == m.classes[c].queue[p] && m.dispatch(now).1[j] == m.classes[c].queue[q] ==> i
                < j,
    decreases m.waiting().len(),
{
    let n = m.dispatch(now).0;
    let all = m.dispatch(now).1;
    let queue = m.classes[c].queue;
    law_dispatch_only_admits(m, now);
    lemma_dispatch(m, now);
    assert(m.queue_ok(c) && n.queue_ok(c));
    assert(class_only_admits(m, n, c));
    let gone = queue.len() - n.classes[c].queue.len();
    if q >= gone {
        assert(n.classes[c].queue[q - gone] == queue[q]);
    }
    assert(!(n.tasks[queue[p]].phase is Queued)) by {
        if n.tasks[queue[p]].phase is Queued {
            assert(m.tasks.contains_key(queue[p]));
            assert(n.tasks.contains_key(queue[p]));
            assert(n.class_of(queue[p]).queue.contains(queue[p]));
            let k = n.classes[c].queue.index_of(queue[p]);
            assert(queue[k + gone] == queue[p]);
        }
    }
    if m.active < m.max_concurrent_polls && m.next_class() is Some {
        let d = m.next_class()->0;
        let s = m.serve(d, now);
        let id = m.classes[d].queue[0];
        let rest = s.dispatch(now).1;
        let offset = all.len() - rest.len();
        lemma_next_class(m, d);
        lemma_serve(m, d, now);
        lemma_serve_shrinks(m, d, now);
        law_woken_are_admitted(s, now);
        assert(m.queue_ok(d));
        assert forall|k: int| offset <= k < all.len() implies #[trigger] all[k] == rest[k
            - offset] by {}
        assert(!rest.contains(id));
        assert forall|i: int, j: int|
            #![trigger all[i], all[j]]
            0 <= i < all.len() && 0 <= j < all.len() && all[i] == queue[p] && all[j]
                == queue[q] implies i < j by {
            assert(queue[p] != queue[q]);
            if j < offset {
                assert(all[j] == id);
                assert(d == c);
            } else if i >= offset {
                assert(rest.contains(rest[i - offset]));
                assert(queue[p] != id);
                assert(queue[q] != id) by {
                    assert(rest.contains(rest[j - offset]));
                }
                if d == c {
                    assert(s.classes[c].queue[p - 1] == queue[p]);
                    assert(s.classes[c].queue[q - 1] == queue[q]);
                    law_first_come_first_served(s, now, c, p - 1, q - 1);
                } else {
                    assert(s.classes[c].queue == queue);
                    law_first_come_first_served(s, now, c, p, q);
                }
                assert(rest[i - offset] == queue[p] && rest[j - offset] == queue[q]);
            }
        }
    }
}

/// The virtual time is the highest pass at which a task has been admitted: it takes
/// up the passes of the classes that are served, and does not move otherwise.
pub proof fn law_virtual_time_is_the_highest_pass_served(m: SchedulerModel, now: u64)
    requires
        m.consistent(),
    ensures
        m.virtual_time <= m.dispatch(now).0.virtual_time,
        forall|i: int|
            0 <= i < m.dispatch(now).1.len() ==> m.classes[m.tasks[#[trigger] m.dispatch(
                now,
            ).1[i]].class@].pass <= m.dispatch(now).0.virtual_time,
        m.dispatch(now).0.virtual_time == m.virtual_time || exists|i: int|
            0 <= i < m.dispatch(now).1.len() && m.classes[m.tasks[#[trigger] m.dispatch(
                now,
            ).1[i]].class@].pass == m.dispatch(now).0.virtual_time,
    decreases m.waiting().len(),
{
    let n = m.dispatch(now).0;
    let all = m.dispatch(now).1;
    if m.active < m.max_concurrent_polls && m.next_class() is Some {
        let c = m.next_class()->0;
        let s = m.serve(c, now);
        let id = m.classes[c].queue[0];
        let rest = s.dispatch(now).1;
        let offset = all.len() - rest.len();
        lemma_next_class(m, c);
        lemma_serve(m, c, now);
        lemma_serve_shrinks(m, c, now);
        law_virtual_time_is_the_highest_pass_served(s, now);
        law_woken_are_admitted(s, now);
        assert(m.queue_ok(c));
        assert forall|k: int|
            0 <= k < rest.len() implies s.classes[s.tasks[#[trigger] rest[k]].class@].pass
            == m.classes[m.tasks[rest[k]].class@].pass by {
            assert(rest.contains(rest[k]));
        }
        assert forall|i: int|
            0 <= i < all.len() implies m.classes[m.tasks[#[trigger] all[i]].class@].pass
            <= n.virtual_time by {
            if i >= offset {
                assert(all[i] == rest[i - offset]);
            }
        }
        if n.virtual_time != m.virtual_time {
            if n.virtual_time == s.virtual_time {
                assert(m.classes[m.tasks[all[0]].class@].pass == n.virtual_time);
            } else {
                let k = choose|k: int|
                    0 <= k < rest.len() && s.classes[s.tasks[#[trigger] rest[k]].class@].pass
                        == n.virtual_time;
                assert(all[k + offset] == rest[k]);
            }
        }
    }
}

} // verus!
