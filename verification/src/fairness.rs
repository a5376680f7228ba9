//! Why competing classes get their shares.
//!
//! A class's pass is the execution time that it has been charged, scaled down by
//! its entitlement. So classes have had their shares exactly when their passes
//! are equal, and the difference of two passes is what one is ahead of the other.

use vstd::prelude::*;

use crate::class::{Entitlement, SoftCpuLimit, TaskClass, MILLICORES_PER_CORE};
use crate::control::{TaskControl, TaskPhase};
use crate::invariants::{
    lemma_count_wake, lemma_dispatch, lemma_drop_task, lemma_free_slot, lemma_initial,
    lemma_put_task, lemma_release, lemma_serve, lemma_touch_task, lemma_unknown_class,
    lemma_withdraw,
};
use crate::laws::{
    class_only_admits, law_completions_are_admitted, law_dispatch_only_admits,
    law_limit_is_respected, law_only_disabling_makes_direct, law_order_is_kept, lemma_after,
    lemma_entitle_all, lemma_limit_stays, moment, Operation,
};
use crate::model::{
    advance, charge, is_holder, is_holder_in, lemma_matching_insert, lemma_next_class,
    lemma_serve_shrinks, SchedulerModel, TIME_SCALE,
};

verus! {

/// A weight counts as that many cores: the charge is the time, scaled, over the
/// weight and the polls that shared the machine.
pub proof fn law_weight_counts_as_cores(nanos: nat, weight: nat, active: nat)
    requires
        weight > 0,
        active > 0,
    ensures
        charge(nanos, weight * (MILLICORES_PER_CORE as nat), active) == nanos * (TIME_SCALE as nat)
            / (weight * active),
{
    let work = (nanos * TIME_SCALE) as int;
    let share = (weight * active) as int;
    assert(share > 0) by (nonlinear_arith)
        requires
            weight > 0,
            active > 0,
            share == weight * active,
    ;
    vstd::arithmetic::div_mod::lemma_div_multiples_vanish_quotient(1000, work, share);
    assert(weight * 1000 * active == 1000 * share) by (nonlinear_arith)
        requires
            share == weight * active,
    ;
    assert(nanos * TIME_SCALE * 1000 == 1000 * work) by (nonlinear_arith)
        requires
            work == nanos * TIME_SCALE,
    ;
}

/// A class with `k` times the entitlement can run `k` times as long for the same
/// charge.
pub proof fn law_charge_is_proportional(nanos: nat, millicores: nat, active: nat, k: nat)
    requires
        millicores > 0,
        active > 0,
        k > 0,
    ensures
        charge(k * nanos, k * millicores, active) == charge(nanos, millicores, active),
{
    let work = (nanos * TIME_SCALE * MILLICORES_PER_CORE) as int;
    let share = (millicores * active) as int;
    assert(share > 0) by (nonlinear_arith)
        requires
            millicores > 0,
            active > 0,
            share == millicores * active,
    ;
    assert(work >= 0) by (nonlinear_arith)
        requires
            nanos >= 0,
            work == nanos * TIME_SCALE * MILLICORES_PER_CORE,
            TIME_SCALE == 4_294_967_296,
            MILLICORES_PER_CORE == 1000,
    ;
    vstd::arithmetic::div_mod::lemma_div_multiples_vanish_quotient(k as int, work, share);
    assert((k * millicores) * active == k * share) by (nonlinear_arith)
        requires
            share == millicores * active,
    ;
    assert((k * nanos) * TIME_SCALE * MILLICORES_PER_CORE == k * work) by (nonlinear_arith)
        requires
            work == nanos * TIME_SCALE * MILLICORES_PER_CORE,
    ;
}

/// A class that is entitled to more is charged no more for the same work, and no
/// class is charged less for more work.
pub proof fn law_charge_is_monotone(
    nanos: nat,
    more_nanos: nat,
    millicores: nat,
    more_millicores: nat,
    active: nat,
)
    requires
        nanos <= more_nanos,
        0 < millicores <= more_millicores,
        active > 0,
    ensures
        charge(nanos, more_millicores, active) <= charge(nanos, millicores, active),
        charge(nanos, millicores, active) <= charge(more_nanos, millicores, active),
{
    let work = (nanos * TIME_SCALE * MILLICORES_PER_CORE) as int;
    let more_work = (more_nanos * TIME_SCALE * MILLICORES_PER_CORE) as int;
    let share = (millicores * active) as int;
    let more_share = (more_millicores * active) as int;
    assert(0 < share <= more_share) by (nonlinear_arith)
        requires
            0 < millicores <= more_millicores,
            active > 0,
            share == millicores * active,
            more_share == more_millicores * active,
    ;
    assert(0 <= work <= more_work) by (nonlinear_arith)
        requires
            0 <= nanos <= more_nanos,
            work == nanos * TIME_SCALE * MILLICORES_PER_CORE,
            more_work == more_nanos * TIME_SCALE * MILLICORES_PER_CORE,
            TIME_SCALE == 4_294_967_296,
            MILLICORES_PER_CORE == 1000,
    ;
    vstd::arithmetic::div_mod::lemma_div_is_ordered_by_denominator(work, share, more_share);
    vstd::arithmetic::div_mod::lemma_div_is_ordered(work, more_work, share);
}

/// A weight and a soft CPU limit of as many cores are the same entitlement, up to
/// the weight that is listed.
pub proof fn law_weight_equals_limit_in_cores(weight: u32, limit: SoftCpuLimit)
    requires
        limit@ == weight * MILLICORES_PER_CORE,
    ensures
        Entitlement::weighted(weight).millicores == Entitlement::limited(limit).millicores,
        Entitlement::weighted(weight).weight == weight,
        Entitlement::limited(limit).weight == 0,
{
}

/// A new entitlement counts at once, is listed at once, and leaves the other
/// classes theirs.
pub proof fn law_new_entitlement_counts(
    m: SchedulerModel,
    c: u32,
    entitlement: Entitlement,
    now: u64,
    other: u32,
)
    requires
        m.wf(),
        entitlement.valid(),
    ensures
        m.entitle(c, entitlement).dispatch(now).0.entitlement(c) == entitlement.millicores,
        m.entitle(c, entitlement).dispatch(now).0.classes[c].stats.weight == entitlement.weight,
        m.entitle(c, entitlement).dispatch(now).0.classes[c].pass == m.lowest_pass(),
        other != c ==> m.entitle(c, entitlement).dispatch(now).0.entitlement(other)
            == m.entitlement(other),
{
    lemma_after(m, Operation::Entitle { c, entitlement, now });
    let before = m.entitle(c, entitlement);
    let n = before.dispatch(now).0;
    law_dispatch_only_admits(before, now);
    assert(before.classes.contains_key(c));
    assert(class_only_admits(before, n, c));
    if before.classes.contains_key(other) {
        assert(class_only_admits(before, n, other));
    }
}

/// Whether a class is among those given a new weight.
pub open spec fn is_listed(weights: Seq<(TaskClass, u32)>, c: u32) -> bool {
    exists|i: int| 0 <= i < weights.len() && (#[trigger] weights[i]).0@ == c
}

/// When the weights of several classes change in one step, a class that is not
/// listed stays as it is.
pub proof fn law_unlisted_classes_stay(m: SchedulerModel, weights: Seq<(TaskClass, u32)>, c: u32)
    requires
        !is_listed(weights, c),
    ensures
        m.entitle_all(weights).classes.contains_key(c) == m.classes.contains_key(c),
        m.classes.contains_key(c) ==> m.entitle_all(weights).classes[c] == m.classes[c],
        m.entitle_all(weights).virtual_time == m.virtual_time,
    decreases weights.len(),
{
    if weights.len() > 0 {
        let rest = weights.drop_last();
        assert(weights[weights.len() - 1].0@ != c);
        assert forall|j: int| 0 <= j < rest.len() implies (#[trigger] rest[j]).0@ != c by {
            assert(rest[j] == weights[j]);
        }
        law_unlisted_classes_stay(m, rest, c);
    }
}

/// The lowest pass is lowest however it is found.
pub proof fn lemma_lowest_pass(m: SchedulerModel, pass: u128)
    requires
        m.is_lowest_pass(pass),
    ensures
        m.lowest_pass() == pass,
{
    let q = choose|q: u128| m.is_lowest_pass(q);
    assert(m.is_lowest_pass(q));
}

/// A finite, inhabited set of classes has a lowest pass.
pub proof fn lemma_lowest_of(m: SchedulerModel, set: Set<u32>) -> (lowest: u32)
    requires
        set.finite(),
        set.len() > 0,
    ensures
        set.contains(lowest),
        forall|d: u32| #[trigger] set.contains(d) ==> m.classes[lowest].pass <= m.classes[d].pass,
    decreases set.len(),
{
    let c = set.choose();
    let rest = set.remove(c);
    if rest.len() == 0 {
        assert forall|d: u32| #[trigger] set.contains(d) implies d == c by {
            if d != c {
                assert(rest.contains(d));
            }
        }
        c
    } else {
        let f = lemma_lowest_of(m, rest);
        let lowest = if m.classes[c].pass <= m.classes[f].pass {
            c
        } else {
            f
        };
        assert forall|d: u32| #[trigger] set.contains(d) implies m.classes[lowest].pass
            <= m.classes[d].pass by {
            if d != c {
                assert(rest.contains(d));
            }
        }
        lowest
    }
}

/// Entitling a class leaves the lowest pass where it was.
pub proof fn lemma_lowest_pass_stays(m: SchedulerModel, c: u32, entitlement: Entitlement)
    requires
        m.classes.dom().finite(),
    ensures
        m.entitle(c, entitlement).lowest_pass() == m.lowest_pass(),
        m.entitle(c, entitlement).classes.dom().finite(),
{
    let n = m.entitle(c, entitlement);
    let pass = m.lowest_pass();
    if m.classes.dom().len() > 0 {
        let f = lemma_lowest_of(m, m.classes.dom());
        assert(m.classes.contains_key(f));
        assert(m.is_lowest_pass(m.classes[f].pass));
        lemma_lowest_pass(m, m.classes[f].pass);
    } else {
        assert(m.classes.dom() =~= Set::empty());
        assert(!exists|q: u128| m.is_lowest_pass(q));
    }
    assert(n.classes.contains_key(c) && n.classes[c].pass == pass);
    assert(n.is_lowest_pass(pass)) by {
        assert forall|d: u32| #[trigger] n.classes.contains_key(d) implies pass
            <= n.classes[d].pass by {
            if d != c {
                assert(m.classes.contains_key(d));
                assert(m.classes.dom().contains(d));
            }
        }
    }
    lemma_lowest_pass(n, pass);
}

/// Giving several classes new weights leaves the lowest pass where it was.
pub proof fn lemma_lowest_pass_stays_all(m: SchedulerModel, weights: Seq<(TaskClass, u32)>)
    requires
        m.classes.dom().finite(),
    ensures
        m.entitle_all(weights).lowest_pass() == m.lowest_pass(),
        m.entitle_all(weights).classes.dom().finite(),
        m.entitle_all(weights).virtual_time == m.virtual_time,
    decreases weights.len(),
{
    if weights.len() > 0 {
        let rest = weights.drop_last();
        let (class, weight) = weights.last();
        lemma_lowest_pass_stays_all(m, rest);
        lemma_lowest_pass_stays(m.entitle_all(rest), class@, Entitlement::weighted(weight));
    }
}

/// When the weights of several classes change in one step, a listed class gets
/// the weight of its last entry, and starts over at the pass that was the lowest
/// before the step.
pub proof fn law_listed_classes_are_entitled(
    m: SchedulerModel,
    weights: Seq<(TaskClass, u32)>,
    i: int,
)
    requires
        m.classes.dom().finite(),
        0 <= i < weights.len(),
        forall|j: int| i < j < weights.len() ==> (#[trigger] weights[j]).0@ != weights[i].0@,
    ensures
        m.entitle_all(weights).classes.contains_key(weights[i].0@),
        m.entitle_all(weights).classes[weights[i].0@] == m.class_or_new(weights[i].0@).entitle(
            Entitlement::weighted(weights[i].1),
            m.lowest_pass(),
        ),
    decreases weights.len(),
{
    let rest = weights.drop_last();
    let c = weights[i].0@;
    lemma_lowest_pass_stays_all(m, rest);
    if i < weights.len() - 1 {
        assert(rest[i] == weights[i]);
        assert forall|j: int| i < j < rest.len() implies (#[trigger] rest[j]).0@ != c by {
            assert(rest[j] == weights[j]);
        }
        law_listed_classes_are_entitled(m, rest, i);
        assert(weights[weights.len() - 1].0@ != c);
    } else {
        lemma_entitled_before(m, rest, c);
    }
}

/// However often a class is given a new weight, the next one counts the same.
proof fn lemma_entitled_before(m: SchedulerModel, weights: Seq<(TaskClass, u32)>, c: u32)
    requires
        m.classes.dom().finite(),
    ensures
        forall|e: Entitlement, p: u128| #[trigger]
            m.entitle_all(weights).class_or_new(c).entitle(e, p) == m.class_or_new(c).entitle(
                e,
                p,
            ),
    decreases weights.len(),
{
    if weights.len() > 0 {
        let rest = weights.drop_last();
        lemma_entitled_before(m, rest, c);
        lemma_lowest_pass_stays_all(m, rest);
        let (class, weight) = weights.last();
        let r = m.entitle_all(rest);
        let n = m.entitle_all(weights);
        if class@ == c {
            assert(n.class_or_new(c) == r.class_or_new(c).entitle(
                Entitlement::weighted(weight),
                r.lowest_pass(),
            ));
        } else {
            assert(n.class_or_new(c) == r.class_or_new(c));
        }
        assert forall|e: Entitlement, p: u128| #[trigger]
            n.class_or_new(c).entitle(e, p) == m.class_or_new(c).entitle(e, p) by {
            assert(r.class_or_new(c).entitle(e, p) == m.class_or_new(c).entitle(e, p));
            if class@ == c {
                let f = Entitlement::weighted(weight);
                assert(r.class_or_new(c).entitle(f, r.lowest_pass()).entitle(e, p)
                    == r.class_or_new(c).entitle(e, p));
            }
        }
    }
}

/// A class that was idle rejoins at the virtual time at the earliest: it brings
/// no credit along from its idle time, and a debt no longer counts than until the
/// others have caught up.
pub proof fn law_idle_class_rejoins_without_credit(m: SchedulerModel, id: u64, now: u64)
    requires
        m.wf(),
        m.phase(id) is Idle,
        m.class_of(id).queue.len() == 0,
    ensures
        m.enqueue(id, now).class_of(id).pass >= m.virtual_time,
        m.class_of(id).pass <= m.virtual_time ==> m.enqueue(id, now).class_of(id).pass
            == m.virtual_time,
        m.class_of(id).pass > m.virtual_time ==> m.enqueue(id, now).class_of(id).pass
            == m.class_of(id).pass,
{
}

/// A class in which nothing waits takes no part in the filling of the slots: it
/// is neither served nor held back for.
pub proof fn law_idle_class_reserves_nothing(m: SchedulerModel, c: u32, now: u64)
    requires
        m.consistent(),
        m.classes.contains_key(c),
        !m.backlogged(c),
    ensures
        m.dispatch(now).0.classes[c] == m.classes[c],
        m.dispatch(now).0.work_conserving(),
    decreases m.waiting().len(),
{
    lemma_dispatch(m, now);
    if m.active < m.max_concurrent_polls && m.next_class() is Some {
        let d = m.next_class()->0;
        lemma_next_class(m, d);
        lemma_serve(m, d, now);
        lemma_serve_shrinks(m, d, now);
        assert(!m.serve(d, now).backlogged(c));
        law_idle_class_reserves_nothing(m.serve(d, now), c, now);
    }
}

/// Whether the scheduler keeps its classes together with `b`: with no more than
/// `k` polls at a time, each charged no more than `d`, no class is ahead of the
/// virtual time by more than the charges of `k` polls, of which those under way
/// are still to come, and `b`, while it has tasks waiting, is not behind it.
pub open spec fn paced(m: SchedulerModel, k: nat, d: nat, b: u32) -> bool {
    &&& m.active <= k
    &&& m.max_concurrent_polls <= k
    &&& forall|c: u32| #[trigger]
        m.classes.contains_key(c) ==> m.classes[c].pass + m.holders_in(c).len() * d
            <= m.virtual_time + k * d
    &&& m.backlogged(b) ==> m.virtual_time <= m.classes[b].pass
}

/// The polls of one class are among all polls.
pub proof fn lemma_holders_in(m: SchedulerModel, c: u32)
    requires
        m.consistent(),
    ensures
        m.holders_in(c).len() <= m.active,
        m.holders_in(c).finite(),
{
    lemma_matching_insert(m.tasks, 0, TaskControl::fresh(TaskClass::of(0), 0), is_holder());
    lemma_matching_insert(m.tasks, 0, TaskControl::fresh(TaskClass::of(0), 0), is_holder_in(c));
    assert(m.holders_in(c).subset_of(m.holders()));
    vstd::set_lib::lemma_len_subset(m.holders_in(c), m.holders());
}

/// No more than `k` polls are charged no more than `k` times.
pub proof fn lemma_times(h: nat, k: nat, d: nat)
    requires
        h <= k,
    ensures
        h * d <= k * d,
        (h + 1) * d == h * d + d,
{
    assert(h * d <= k * d) by (nonlinear_arith)
        requires
            h <= k,
    ;
    assert((h + 1) * d == h * d + d) by (nonlinear_arith);
}

/// Serving the class with the lowest pass keeps the classes together.
proof fn lemma_serve_paced(m: SchedulerModel, c: u32, now: u64, k: nat, d: nat, b: u32)
    requires
        m.consistent(),
        paced(m, k, d, b),
        m.backlogged(c),
        m.is_first(c),
        m.active < m.max_concurrent_polls,
    ensures
        paced(m.serve(c, now), k, d, b),
{
    let n = m.serve(c, now);
    let id = m.classes[c].queue[0];
    assert(m.queue_ok(c));
    lemma_serve(m, c, now);
    lemma_put_task(m, id, n.tasks[id]);
    assert(n.tasks == m.put_task(id, n.tasks[id]).tasks);
    assert forall|e: u32| #[trigger] n.classes.contains_key(e) implies n.classes[e].pass
        + n.holders_in(e).len() * d <= n.virtual_time + k * d by {
        assert(m.classes.contains_key(e));
        assert(n.holders_in(e) == m.put_task(id, n.tasks[id]).holders_in(e));
        lemma_holders_in(m, e);
        lemma_holders_in(n, e);
        lemma_times(m.holders_in(e).len(), k, d);
        lemma_times(n.holders_in(e).len(), k, d);
    }
    if n.backlogged(b) {
        assert(m.backlogged(b));
    }
}

/// Filling the free slots keeps the classes together.
proof fn lemma_dispatch_paced(m: SchedulerModel, now: u64, k: nat, d: nat, b: u32)
    requires
        m.consistent(),
        paced(m, k, d, b),
    ensures
        paced(m.dispatch(now).0, k, d, b),
    decreases m.waiting().len(),
{
    if m.active < m.max_concurrent_polls && m.next_class() is Some {
        let c = m.next_class()->0;
        lemma_next_class(m, c);
        lemma_serve(m, c, now);
        lemma_serve_shrinks(m, c, now);
        lemma_serve_paced(m, c, now, k, d, b);
        lemma_dispatch_paced(m.serve(c, now), now, k, d, b);
    }
}

/// A task that enters its queue keeps the classes together.
proof fn lemma_enqueue_paced(m: SchedulerModel, id: u64, now: u64, k: nat, d: nat, b: u32)
    requires
        m.consistent(),
        paced(m, k, d, b),
        m.phase(id) is Idle,
    ensures
        paced(m.enqueue(id, now), k, d, b),
{
    let n = m.enqueue(id, now);
    assert(m.tasks.contains_key(id));
    lemma_put_task(m, id, n.tasks[id]);
    assert(n.tasks == m.put_task(id, n.tasks[id]).tasks);
    assert forall|e: u32| #[trigger] n.classes.contains_key(e) implies n.classes[e].pass
        + n.holders_in(e).len() * d <= n.virtual_time + k * d by {
        assert(m.classes.contains_key(e));
        assert(n.holders_in(e) == m.put_task(id, n.tasks[id]).holders_in(e));
        lemma_holders_in(m, e);
        lemma_times(m.holders_in(e).len(), k, d);
    }
    if n.backlogged(b) && (b != m.tasks[id].class@ || m.classes[b].queue.len() > 0) {
        assert(m.backlogged(b));
    }
}

/// A slot given back, and charged for no more than `d`, keeps the classes
/// together.
proof fn lemma_release_paced(
    m: SchedulerModel,
    id: u64,
    exec_time: Option<u64>,
    k: nat,
    d: nat,
    b: u32,
)
    requires
        m.consistent(),
        paced(m, k, d, b),
        m.phase(id).holds_slot(),
        exec_time matches Some(t) ==> charge(
            t as nat,
            m.class_of(id).millicores as nat,
            m.active as nat,
        ) <= d,
    ensures
        paced(m.release(id, exec_time), k, d, b),
        paced(m.free_slot(id), k, d, b),
{
    let n = m.release(id, exec_time);
    let f = m.free_slot(id);
    let own = m.tasks[id].class@;
    lemma_free_slot(m, id);
    lemma_put_task(m, id, n.tasks[id]);
    assert(n.tasks == m.put_task(id, n.tasks[id]).tasks);
    assert(f.tasks == n.tasks);
    assert forall|e: u32| #[trigger] m.classes.contains_key(e) implies {
        &&& n.classes[e].pass + n.holders_in(e).len() * d <= n.virtual_time + k * d
        &&& f.classes[e].pass + f.holders_in(e).len() * d <= f.virtual_time + k * d
    } by {
        assert(n.holders_in(e) == m.put_task(id, n.tasks[id]).holders_in(e));
        assert(f.holders_in(e) == n.holders_in(e));
        if e == own {
            lemma_times(n.holders_in(e).len(), n.holders_in(e).len(), d);
        }
    }
    if n.backlogged(b) {
        assert(m.backlogged(b));
    }
    if f.backlogged(b) {
        assert(m.backlogged(b));
    }
}

/// What changes neither passes nor slots, and makes no class backlogged, keeps
/// the classes together.
proof fn lemma_quiet_paced(m: SchedulerModel, n: SchedulerModel, k: nat, d: nat, b: u32)
    requires
        paced(m, k, d, b),
        n.active == m.active,
        n.max_concurrent_polls <= k,
        n.virtual_time == m.virtual_time,
        forall|c: u32| #[trigger]
            n.classes.contains_key(c) ==> {
                &&& n.holders_in(c).len() <= m.holders_in(c).len()
                &&& if m.classes.contains_key(c) {
                    n.classes[c].pass == m.classes[c].pass
                } else {
                    n.classes[c].pass == m.virtual_time && m.holders_in(c).len() == 0
                }
            },
        n.backlogged(b) ==> m.backlogged(b),
    ensures
        paced(n, k, d, b),
{
    assert forall|c: u32| #[trigger] n.classes.contains_key(c) implies n.classes[c].pass
        + n.holders_in(c).len() * d <= n.virtual_time + k * d by {
        lemma_times(n.holders_in(c).len(), m.holders_in(c).len(), d);
        lemma_times(0, k, d);
    }
}

/// Whether an operation keeps to the pace: it charges no more than `d`, allows no
/// more than `k` polls, and does not entitle `b` anew.
pub open spec fn keeps_pace(m: SchedulerModel, op: Operation, k: nat, d: nat, b: u32) -> bool {
    match op {
        Operation::FinishPending { id, exec_time: Some(t), .. } => m.phase(id).holds_slot()
            ==> charge(t as nat, m.class_of(id).millicores as nat, m.active as nat) <= d,
        Operation::FinishReady { id, exec_time: Some(t), .. } => m.phase(id).holds_slot()
            ==> charge(t as nat, m.class_of(id).millicores as nat, m.active as nat) <= d,
        Operation::Limit { max_concurrent_polls, .. } => max_concurrent_polls <= k,
        _ => !entitles(op, b),
    }
}

/// Whether an operation gives a class another entitlement.
pub open spec fn entitles(op: Operation, c: u32) -> bool {
    match op {
        Operation::Entitle { c: e, .. } => e == c,
        Operation::EntitleAll { weights, .. } => is_listed(weights, c),
        _ => false,
    }
}

/// A task that goes leaves the passes and the other tasks' slots alone.
proof fn lemma_go_paced(m: SchedulerModel, id: u64, k: nat, d: nat, b: u32)
    requires
        m.consistent(),
        paced(m, k, d, b),
        m.phase(id) is Idle,
    ensures
        paced(m.complete(id), k, d, b),
        paced(m.abandon(id), k, d, b),
{
    lemma_drop_task(m, id);
    let done = m.complete(id);
    let gone = m.abandon(id);
    assert(m.tasks.contains_key(id));
    assert forall|c: u32| #[trigger] done.classes.contains_key(c) implies done.holders_in(c).len()
        <= m.holders_in(c).len() && m.classes.contains_key(c) && done.classes[c].pass
        == m.classes[c].pass by {
        assert(done.holders_in(c) == m.drop_task(id).holders_in(c));
    }
    assert forall|c: u32| #[trigger] gone.classes.contains_key(c) implies gone.holders_in(c).len()
        <= m.holders_in(c).len() && m.classes.contains_key(c) && gone.classes[c].pass
        == m.classes[c].pass by {
        assert(gone.holders_in(c) == m.drop_task(id).holders_in(c));
    }
    lemma_quiet_paced(m, done, k, d, b);
    lemma_quiet_paced(m, gone, k, d, b);
}

/// What happens to one task that keeps its slot, or its lack of one, keeps the
/// classes together.
proof fn lemma_touch_paced(m: SchedulerModel, id: u64, task: TaskControl, k: nat, d: nat, b: u32)
    requires
        m.consistent(),
        paced(m, k, d, b),
        m.tasks.contains_key(id),
        task.class@ == m.tasks[id].class@,
        task.phase.holds_slot() == m.tasks[id].phase.holds_slot(),
    ensures
        paced(m.put_task(id, task), k, d, b),
{
    lemma_put_task(m, id, task);
    let n = m.put_task(id, task);
    assert forall|c: u32| #[trigger] n.classes.contains_key(c) implies n.holders_in(c).len()
        <= m.holders_in(c).len() by {}
    lemma_quiet_paced(m, n, k, d, b);
}

/// What happens before the free slots are filled keeps the classes together.
proof fn lemma_before_dispatch_paced(m: SchedulerModel, op: Operation, k: nat, d: nat, b: u32)
    requires
        m.wf(),
        m.allows(op),
        paced(m, k, d, b),
        keeps_pace(m, op, k, d, b),
    ensures
        paced(m.before_dispatch(op), k, d, b),
{
    let before = m.before_dispatch(op);
    match op {
        Operation::Schedule { class, now } => {
            if m.enabled {
                let id = m.next_task;
                let task = TaskControl::fresh(class, now);
                assert forall|c: u32| #[trigger] before.classes.contains_key(c) implies {
                    &&& before.holders_in(c).len() <= m.holders_in(c).len()
                    &&& !m.classes.contains_key(c) ==> m.holders_in(c).len() == 0
                } by {
                    lemma_matching_insert(m.tasks, id, task, is_holder_in(c));
                    if !m.classes.contains_key(c) {
                        lemma_unknown_class(m, c);
                    }
                }
                lemma_quiet_paced(m, before, k, d, b);
            }
        },
        Operation::BeginPoll { id, now } => {
            if m.tasks.contains_key(id) {
                let task = TaskControl { has_waker: true, ..m.tasks[id] };
                let r = m.register(id);
                lemma_touch_task(m, id, task);
                lemma_touch_paced(m, id, task, k, d, b);
                if m.phase(id) is Idle && !m.is_direct(id) {
                    lemma_enqueue_paced(r, id, now, k, d, b);
                } else if m.phase(id) is Admitted {
                    let polling = TaskControl { phase: TaskPhase::Polling, ..r.tasks[id] };
                    lemma_touch_paced(r, id, polling, k, d, b);
                }
            }
        },
        Operation::Notify { id, c, now } => {
            let r = m.put_class(c, m.classes[c].count_wake());
            lemma_count_wake(m, c);
            assert forall|e: u32| #[trigger] r.classes.contains_key(e) implies r.holders_in(
                e,
            ).len() <= m.holders_in(e).len() by {
                assert(r.holders_in(e) == m.holders_in(e));
            }
            lemma_quiet_paced(m, r, k, d, b);
            if m.phase(id) is Idle && !m.is_direct(id) {
                lemma_enqueue_paced(r, id, now, k, d, b);
            } else if m.phase(id) is Polling {
                let notified = TaskControl { phase: TaskPhase::PollingNotified, ..r.tasks[id] };
                lemma_touch_paced(r, id, notified, k, d, b);
            }
        },
        Operation::FinishPending { id, exec_time, now } => {
            if m.phase(id).holds_slot() {
                lemma_release(m, id, exec_time);
                lemma_release_paced(m, id, exec_time, k, d, b);
                if m.phase(id) is PollingNotified && !m.is_direct(id) {
                    lemma_enqueue_paced(m.release(id, exec_time), id, now, k, d, b);
                }
            }
        },
        Operation::FinishReady { id, exec_time, .. } => {
            if m.phase(id).holds_slot() {
                lemma_release(m, id, exec_time);
                lemma_release_paced(m, id, exec_time, k, d, b);
                lemma_go_paced(m.release(id, exec_time), id, k, d, b);
            } else {
                lemma_go_paced(m, id, k, d, b);
            }
        },
        Operation::Cancel { id, .. } => {
            match m.phase(id) {
                TaskPhase::Finished => {},
                TaskPhase::Idle => {
                    lemma_go_paced(m, id, k, d, b);
                },
                TaskPhase::Queued => {
                    lemma_withdraw(m, id);
                    let w = m.withdraw(id);
                    lemma_put_task(m, id, w.tasks[id]);
                    assert(w.tasks == m.put_task(id, w.tasks[id]).tasks);
                    assert forall|e: u32| #[trigger] w.classes.contains_key(e) implies
                        w.holders_in(e).len() <= m.holders_in(e).len() by {
                        assert(w.holders_in(e) == m.put_task(id, w.tasks[id]).holders_in(e));
                    }
                    assert(m.class_of(id).queue.contains(id));
                    lemma_quiet_paced(m, w, k, d, b);
                    lemma_go_paced(w, id, k, d, b);
                },
                _ => {
                    lemma_free_slot(m, id);
                    lemma_release_paced(m, id, None, k, d, b);
                    lemma_go_paced(m.free_slot(id), id, k, d, b);
                },
            }
        },
        Operation::Limit { max_concurrent_polls, .. } => {
            assert forall|e: u32| #[trigger] before.classes.contains_key(e) implies
                before.holders_in(e).len() <= m.holders_in(e).len() by {
                assert(before.holders_in(e) == m.holders_in(e));
            }
            lemma_quiet_paced(m, before, k, d, b);
        },
        Operation::Enable => {
            assert forall|e: u32| #[trigger] before.classes.contains_key(e) implies
                before.holders_in(e).len() <= m.holders_in(e).len() by {
                assert(before.holders_in(e) == m.holders_in(e));
            }
            lemma_quiet_paced(m, before, k, d, b);
        },
        Operation::Disable => {
            assert forall|e: u32| #[trigger] before.classes.contains_key(e) implies
                before.holders_in(e).len() <= m.holders_in(e).len() by {
                assert(before.holders_in(e) =~= m.holders_in(e));
            }
            lemma_quiet_paced(m, before, k, d, b);
        },
        Operation::Entitle { c, entitlement, .. } => {
            lemma_entitle_paced(m, c, entitlement, k, d, b);
        },
        Operation::EntitleAll { weights, .. } => {
            lemma_entitle_all_paced(m, weights, k, d, b);
        },
    }
}

/// Another class that starts over at the lowest pass keeps the classes together.
proof fn lemma_entitle_paced(
    m: SchedulerModel,
    c: u32,
    entitlement: Entitlement,
    k: nat,
    d: nat,
    b: u32,
)
    requires
        m.consistent(),
        paced(m, k, d, b),
        c != b,
    ensures
        paced(m.entitle(c, entitlement), k, d, b),
{
    let n = m.entitle(c, entitlement);
    lemma_times(0, k, d);
    lemma_lowest_pass_bound(m);
    assert forall|e: u32| #[trigger] n.classes.contains_key(e) implies n.classes[e].pass
        + n.holders_in(e).len() * d <= n.virtual_time + k * d by {
        assert(n.holders_in(e) == m.holders_in(e));
        if !m.classes.contains_key(e) {
            lemma_unknown_class(m, e);
            if m.classes.dom().len() > 0 {
                let f = m.classes.dom().choose();
                assert(m.classes.contains_key(f));
                lemma_times(0, m.holders_in(f).len(), d);
            }
        }
    }
}

/// The lowest pass is no higher than that of any class.
pub proof fn lemma_lowest_pass_bound(m: SchedulerModel)
    requires
        m.classes.dom().finite(),
    ensures
        forall|c: u32| #[trigger]
            m.classes.contains_key(c) ==> m.lowest_pass() <= m.classes[c].pass,
        m.classes.dom().len() == 0 ==> m.lowest_pass() == m.virtual_time,
{
    if m.classes.dom().len() > 0 {
        let f = lemma_lowest_of(m, m.classes.dom());
        assert(m.classes.contains_key(f));
        assert forall|c: u32| #[trigger] m.classes.contains_key(c) implies m.classes[f].pass
            <= m.classes[c].pass by {
            assert(m.classes.dom().contains(c));
        }
        assert(m.is_lowest_pass(m.classes[f].pass));
        lemma_lowest_pass(m, m.classes[f].pass);
    } else {
        assert(m.classes.dom() =~= Set::empty());
        assert(!exists|q: u128| m.is_lowest_pass(q));
    }
}

/// Other classes that start over at the lowest pass keep the classes together.
proof fn lemma_entitle_all_paced(
    m: SchedulerModel,
    weights: Seq<(TaskClass, u32)>,
    k: nat,
    d: nat,
    b: u32,
)
    requires
        m.consistent(),
        paced(m, k, d, b),
        !is_listed(weights, b),
        forall|i: int| 0 <= i < weights.len() ==> (#[trigger] weights[i]).1 > 0,
    ensures
        paced(m.entitle_all(weights), k, d, b),
    decreases weights.len(),
{
    if weights.len() > 0 {
        let rest = weights.drop_last();
        let (class, weight) = weights.last();
        assert(weights[weights.len() - 1].0@ != b);
        assert forall|i: int| 0 <= i < rest.len() implies (#[trigger] rest[i]).1 > 0 && rest[i].0@
            != b by {
            assert(rest[i] == weights[i]);
        }
        lemma_entitle_all(m, rest);
        lemma_entitle_all_paced(m, rest, k, d, b);
        lemma_entitle_paced(
            m.entitle_all(rest),
            class@,
            Entitlement::weighted(weight),
            k,
            d,
            b,
        );
    }
}

/// A scheduler that keeps its classes together with `b` goes on doing so, as long
/// as no poll is charged more than `d`, no more than `k` polls are allowed at a
/// time, and `b` is not entitled anew.
pub proof fn law_pace_is_kept(m: SchedulerModel, op: Operation, k: nat, d: nat, b: u32)
    requires
        m.wf(),
        m.allows(op),
        paced(m, k, d, b),
        keeps_pace(m, op, k, d, b),
    ensures
        paced(m.after(op), k, d, b),
{
    lemma_after(m, op);
    lemma_before_dispatch_paced(m, op, k, d, b);
    lemma_dispatch_paced(m.before_dispatch(op), moment(op), k, d, b);
}

/// A scheduler that has done nothing yet keeps its classes together.
pub proof fn law_pace_at_first(
    max_concurrent_polls: usize,
    entitlements: Map<u32, Entitlement>,
    k: nat,
    d: nat,
    b: u32,
)
    requires
        max_concurrent_polls <= k,
    ensures
        paced(SchedulerModel::initial(max_concurrent_polls, entitlements), k, d, b),
{
    let m = SchedulerModel::initial(max_concurrent_polls, entitlements);
    assert forall|c: u32| #[trigger] m.classes.contains_key(c) implies m.classes[c].pass
        + m.holders_in(c).len() * d <= m.virtual_time + k * d by {
        assert(m.holders_in(c) =~= Set::empty());
        lemma_times(0, k, d);
    }
}

/// The scheduler after several things have happened to it.
pub open spec fn run(m: SchedulerModel, ops: Seq<Operation>) -> SchedulerModel
    decreases ops.len(),
{
    if ops.len() == 0 {
        m
    } else {
        run(m, ops.drop_last()).after(ops.last())
    }
}

/// Whether each of several things can happen in turn.
pub open spec fn runs(m: SchedulerModel, ops: Seq<Operation>) -> bool {
    forall|i: int|
        0 <= i < ops.len() ==> run(m, ops.take(i)).allows(#[trigger] ops[i])
}

/// Whether each of several things keeps to the pace in turn.
pub open spec fn runs_at_pace(
    m: SchedulerModel,
    ops: Seq<Operation>,
    k: nat,
    d: nat,
    b: u32,
) -> bool {
    forall|i: int|
        0 <= i < ops.len() ==> keeps_pace(run(m, ops.take(i)), #[trigger] ops[i], k, d, b)
}

/// What holds of a run holds of its beginning.
pub proof fn lemma_run_take(m: SchedulerModel, ops: Seq<Operation>)
    requires
        ops.len() > 0,
        runs(m, ops),
    ensures
        runs(m, ops.drop_last()),
        run(m, ops.drop_last()).allows(ops.last()),
{
    let rest = ops.drop_last();
    assert forall|i: int| 0 <= i < rest.len() implies run(m, rest.take(i)).allows(
        #[trigger] rest[i],
    ) by {
        assert(rest[i] == ops[i]);
        assert(rest.take(i) =~= ops.take(i));
    }
    assert(ops.take(ops.len() - 1) =~= rest);
    assert(ops[ops.len() - 1] == ops.last());
}

/// Whatever happens to a scheduler, and however long, it stays in order.
pub proof fn law_order_is_kept_forever(m: SchedulerModel, ops: Seq<Operation>)
    requires
        m.wf(),
        runs(m, ops),
    ensures
        run(m, ops).wf(),
    decreases ops.len(),
{
    if ops.len() > 0 {
        lemma_run_take(m, ops);
        law_order_is_kept_forever(m, ops.drop_last());
        law_order_is_kept(run(m, ops.drop_last()), ops.last());
    }
}

/// However long a scheduler runs without being disabled, no task is direct, and no
/// class has more completions than admitted polls.
pub proof fn law_never_disabled_means_admitted(
    max_concurrent_polls: usize,
    entitlements: Map<u32, Entitlement>,
    ops: Seq<Operation>,
)
    requires
        max_concurrent_polls > 0,
        entitlements.dom().finite(),
        forall|c: u32| #[trigger] entitlements.contains_key(c) ==> entitlements[c].valid(),
        runs(SchedulerModel::initial(max_concurrent_polls, entitlements), ops),
        forall|i: int| 0 <= i < ops.len() ==> !((#[trigger] ops[i]) is Disable),
    ensures
        run(SchedulerModel::initial(max_concurrent_polls, entitlements), ops).direct_before == 0,
        forall|c: u32| #[trigger]
            run(
                SchedulerModel::initial(max_concurrent_polls, entitlements),
                ops,
            ).classes.contains_key(c) ==> run(
                SchedulerModel::initial(max_concurrent_polls, entitlements),
                ops,
            ).classes[c].stats.completed <= run(
                SchedulerModel::initial(max_concurrent_polls, entitlements),
                ops,
            ).classes[c].stats.polls,
    decreases ops.len(),
{
    let first = SchedulerModel::initial(max_concurrent_polls, entitlements);
    lemma_initial(max_concurrent_polls, entitlements);
    law_order_is_kept_forever(first, ops);
    if ops.len() > 0 {
        let rest = ops.drop_last();
        lemma_run_take(first, ops);
        assert forall|i: int| 0 <= i < rest.len() implies !((#[trigger] rest[i]) is Disable) by {
            assert(rest[i] == ops[i]);
        }
        law_never_disabled_means_admitted(max_concurrent_polls, entitlements, rest);
        law_order_is_kept_forever(first, rest);
        assert(ops[ops.len() - 1] == ops.last());
        law_only_disabling_makes_direct(run(first, rest), ops.last());
    }
    let n = run(first, ops);
    assert forall|c: u32| #[trigger] n.classes.contains_key(c) implies n.classes[c].stats.completed
        <= n.classes[c].stats.polls by {
        law_completions_are_admitted(n, c);
    }
}

/// However long a scheduler runs, no more polls are admitted at a time than the
/// highest limit that it was ever given.
pub proof fn law_admitted_polls_are_bounded(
    max_concurrent_polls: usize,
    entitlements: Map<u32, Entitlement>,
    ops: Seq<Operation>,
    k: usize,
)
    requires
        0 < max_concurrent_polls <= k,
        entitlements.dom().finite(),
        forall|c: u32| #[trigger] entitlements.contains_key(c) ==> entitlements[c].valid(),
        runs(SchedulerModel::initial(max_concurrent_polls, entitlements), ops),
        forall|i: int|
            0 <= i < ops.len() ==> ((#[trigger] ops[i]) matches Operation::Limit {
                max_concurrent_polls: limit,
                ..
            } ==> limit <= k),
    ensures
        run(SchedulerModel::initial(max_concurrent_polls, entitlements), ops).active <= k,
        run(SchedulerModel::initial(max_concurrent_polls, entitlements), ops).max_concurrent_polls
            <= k,
    decreases ops.len(),
{
    let first = SchedulerModel::initial(max_concurrent_polls, entitlements);
    lemma_initial(max_concurrent_polls, entitlements);
    if ops.len() > 0 {
        let rest = ops.drop_last();
        lemma_run_take(first, ops);
        assert forall|i: int| 0 <= i < rest.len() implies ((#[trigger] rest[i]) matches
            Operation::Limit { max_concurrent_polls: limit, .. } ==> limit <= k) by {
            assert(rest[i] == ops[i]);
        }
        law_admitted_polls_are_bounded(max_concurrent_polls, entitlements, rest, k);
        law_order_is_kept_forever(first, rest);
        assert(ops[ops.len() - 1] == ops.last());
        law_limit_is_respected(run(first, rest), ops.last());
        lemma_limit_stays(run(first, rest), ops.last());
    }
}

/// Competing classes get their shares: however long a scheduler runs, no class
/// gets ahead of a class that has tasks waiting by more than `k` times `d`, where
/// `k` bounds the concurrent polls and `d` what a single one is charged. The bound
/// does not grow with the time, the number of classes or the load.
///
/// To entitle the waiting class anew would set it back to the lowest pass of all,
/// that of classes which have long been idle included, so that alone is left out.
pub proof fn law_classes_get_their_shares(
    max_concurrent_polls: usize,
    entitlements: Map<u32, Entitlement>,
    ops: Seq<Operation>,
    k: nat,
    d: nat,
    a: u32,
    b: u32,
)
    requires
        0 < max_concurrent_polls <= k,
        entitlements.dom().finite(),
        forall|c: u32| #[trigger] entitlements.contains_key(c) ==> entitlements[c].valid(),
        runs(SchedulerModel::initial(max_concurrent_polls, entitlements), ops),
        runs_at_pace(SchedulerModel::initial(max_concurrent_polls, entitlements), ops, k, d, b),
        run(
            SchedulerModel::initial(max_concurrent_polls, entitlements),
            ops,
        ).classes.contains_key(a),
        run(SchedulerModel::initial(max_concurrent_polls, entitlements), ops).backlogged(b),
    ensures
        run(SchedulerModel::initial(max_concurrent_polls, entitlements), ops).classes[a].pass
            <= run(
            SchedulerModel::initial(max_concurrent_polls, entitlements),
            ops,
        ).classes[b].pass + k * d,
{
    let first = SchedulerModel::initial(max_concurrent_polls, entitlements);
    lemma_initial(max_concurrent_polls, entitlements);
    law_pace_at_first(max_concurrent_polls, entitlements, k, d, b);
    lemma_run_paced(first, ops, k, d, b);
    let m = run(first, ops);
    lemma_times(0, m.holders_in(a).len(), d);
}

/// Classes that are kept together stay together.
proof fn lemma_run_paced(m: SchedulerModel, ops: Seq<Operation>, k: nat, d: nat, b: u32)
    requires
        m.wf(),
        paced(m, k, d, b),
        runs(m, ops),
        runs_at_pace(m, ops, k, d, b),
    ensures
        run(m, ops).wf(),
        paced(run(m, ops), k, d, b),
    decreases ops.len(),
{
    if ops.len() > 0 {
        let rest = ops.drop_last();
        lemma_run_take(m, ops);
        assert(runs_at_pace(m, rest, k, d, b)) by {
            assert forall|i: int| 0 <= i < rest.len() implies keeps_pace(
                run(m, rest.take(i)),
                #[trigger] rest[i],
                k,
                d,
                b,
            ) by {
                assert(rest[i] == ops[i]);
                assert(rest.take(i) =~= ops.take(i));
            }
        }
        assert(ops.take(ops.len() - 1) =~= rest);
        assert(keeps_pace(run(m, rest), ops[ops.len() - 1], k, d, b));
        lemma_run_paced(m, rest, k, d, b);
        law_order_is_kept(run(m, rest), ops.last());
        law_pace_is_kept(run(m, rest), ops.last(), k, d, b);
    }
}

/// The time that an operation charges to a class, if any.
pub open spec fn time_charged(m: SchedulerModel, op: Operation, c: u32) -> Option<u64> {
    match op {
        Operation::FinishPending { id, exec_time, .. } => if m.phase(id).holds_slot()
            && m.tasks[id].class@ == c {
            exec_time
        } else {
            None
        },
        Operation::FinishReady { id, exec_time, .. } => if m.phase(id).holds_slot()
            && m.tasks[id].class@ == c {
            exec_time
        } else {
            None
        },
        _ => None,
    }
}

/// The pass of a class with waiting tasks advances by the charges of its own
/// polls and by nothing else, and the time that they took is added to its total.
pub proof fn law_pass_is_charged_time(m: SchedulerModel, op: Operation, c: u32)
    requires
        m.wf(),
        m.allows(op),
        !entitles(op, c),
        m.backlogged(c),
    ensures
        match time_charged(m, op, c) {
            Some(t) => {
                &&& m.after(op).classes[c].pass == advance(
                    m.classes[c].pass,
                    charge(t as nat, m.classes[c].millicores as nat, m.active as nat),
                )
                &&& m.after(op).classes[c].stats.total_exec_time
                    == m.classes[c].stats.total_exec_time + t
            },
            None => {
                &&& m.after(op).classes[c].pass == m.classes[c].pass
                &&& m.after(op).classes[c].stats.total_exec_time
                    == m.classes[c].stats.total_exec_time
            },
        },
        m.after(op).classes[c].millicores == m.classes[c].millicores,
{
    lemma_after(m, op);
    let before = m.before_dispatch(op);
    let n = m.after(op);
    law_dispatch_only_admits(before, moment(op));
    match op {
        Operation::FinishPending { id, exec_time, .. } => {
            if m.phase(id).holds_slot() {
                lemma_release(m, id, exec_time);
            }
        },
        Operation::FinishReady { id, exec_time, .. } => {
            if m.phase(id).holds_slot() {
                lemma_release(m, id, exec_time);
            }
        },
        Operation::EntitleAll { weights, .. } => {
            law_unlisted_classes_stay(m, weights, c);
        },
        _ => {},
    }
    assert(before.classes.contains_key(c));
    assert(class_only_admits(before, n, c));
}

} // verus!
