//! How classes that compete share the execution time.

use vstd::prelude::*;

use crate::class::{Entitlement, TaskClass, MILLICORES_PER_CORE};
use crate::control::TaskControl;
use crate::fairness::{
    entitles, is_listed, keeps_pace, law_pass_is_charged_time, lemma_holders_in, lemma_lowest_pass,
    lemma_lowest_pass_bound, lemma_lowest_pass_stays, lemma_lowest_pass_stays_all,
    lemma_run_take, lemma_times, paced, run, runs, time_charged,
};
use crate::invariants::{lemma_put_task, lemma_serve};
use crate::laws::{
    class_only_admits, law_dispatch_only_admits, law_limit_is_respected, law_moves_on,
    law_order_is_kept, lemma_after,
    lemma_entitle_all_moves_on, lemma_limit_stays, moment, only_admits, Operation,
};
use crate::model::{
    charge, is_holder_in, lemma_matching_insert, lemma_next_class, lemma_serve_shrinks,
    SchedulerModel, TIME_SCALE,
};

verus! {

/// Whether `a` is ahead of `b` by no more than the charges of `k` polls, each no
/// more than `d`, where the polls of `a` that are under way are still to come.
pub open spec fn within(m: SchedulerModel, k: nat, d: nat, a: u32, b: u32) -> bool {
    m.classes[a].pass + m.holders_in(a).len() * d <= m.classes[b].pass + k * d
}

/// Whether neither of two classes is far ahead of the other.
pub open spec fn level(m: SchedulerModel, k: nat, d: nat, a: u32, b: u32) -> bool {
    within(m, k, d, a, b) && within(m, k, d, b, a)
}

/// Classes that are kept together with each other, and have tasks waiting, are
/// level.
pub proof fn law_pace_is_level(m: SchedulerModel, k: nat, d: nat, a: u32, b: u32)
    requires
        paced(m, k, d, a),
        paced(m, k, d, b),
        m.backlogged(a),
        m.backlogged(b),
    ensures
        level(m, k, d, a, b),
{
}

/// Classes with equal passes are level.
proof fn lemma_equal_is_level(m: SchedulerModel, k: nat, d: nat, a: u32, b: u32)
    requires
        m.consistent(),
        m.active <= k,
        m.classes[a].pass == m.classes[b].pass,
    ensures
        level(m, k, d, a, b),
{
    lemma_holders_in(m, a);
    lemma_holders_in(m, b);
    lemma_times(m.holders_in(a).len(), k, d);
    lemma_times(m.holders_in(b).len(), k, d);
}

/// A listed class starts over at the lowest pass.
proof fn lemma_listed_pass(m: SchedulerModel, weights: Seq<(TaskClass, u32)>, c: u32)
    requires
        m.classes.dom().finite(),
        is_listed(weights, c),
    ensures
        m.entitle_all(weights).classes.contains_key(c),
        m.entitle_all(weights).classes[c].pass == m.lowest_pass(),
    decreases weights.len(),
{
    let rest = weights.drop_last();
    let i = choose|i: int| 0 <= i < weights.len() && (#[trigger] weights[i]).0@ == c;
    lemma_lowest_pass_stays_all(m, rest);
    if weights.last().0@ != c {
        assert(rest[i] == weights[i]);
        lemma_listed_pass(m, rest, c);
    }
}

/// Classes that are given new weights in one step are level: what they were
/// charged before does not count any more.
pub proof fn law_new_weights_are_level(
    m: SchedulerModel,
    weights: Seq<(TaskClass, u32)>,
    now: u64,
    k: nat,
    d: nat,
    a: u32,
    b: u32,
)
    requires
        m.wf(),
        m.allows(Operation::EntitleAll { weights, now }),
        m.active <= k,
        m.max_concurrent_polls <= k,
        is_listed(weights, a),
        is_listed(weights, b),
    ensures
        level(m.after(Operation::EntitleAll { weights, now }), k, d, a, b),
{
    let op = Operation::EntitleAll { weights, now };
    let before = m.entitle_all(weights);
    lemma_after(m, op);
    lemma_entitle_all_moves_on(m, weights);
    law_order_is_kept(m, op);
    law_dispatch_only_admits(before, now);
    lemma_listed_pass(m, weights, a);
    lemma_listed_pass(m, weights, b);
    assert(class_only_admits(before, m.after(op), a));
    assert(class_only_admits(before, m.after(op), b));
    lemma_equal_is_level(m.after(op), k, d, a, b);
}

/// Classes that are entitled anew one after the other are level.
pub proof fn law_new_entitlements_are_level(
    m: SchedulerModel,
    entitlement_a: Entitlement,
    entitlement_b: Entitlement,
    now: u64,
    later: u64,
    k: nat,
    d: nat,
    a: u32,
    b: u32,
)
    requires
        m.wf(),
        entitlement_a.valid(),
        entitlement_b.valid(),
        m.active <= k,
        m.max_concurrent_polls <= k,
    ensures
        level(
            m.entitle(a, entitlement_a).dispatch(now).0.entitle(b, entitlement_b).dispatch(later).0,
            k,
            d,
            a,
            b,
        ),
{
    let first = Operation::Entitle { c: a, entitlement: entitlement_a, now };
    let second = Operation::Entitle { c: b, entitlement: entitlement_b, now: later };
    let once = m.after(first);
    let twice = once.after(second);
    law_order_is_kept(m, first);
    law_order_is_kept(once, second);
    lemma_after(m, first);
    lemma_after(once, second);
    law_dispatch_only_admits(m.entitle(a, entitlement_a), now);
    law_dispatch_only_admits(once.entitle(b, entitlement_b), later);
    lemma_lowest_pass_stays(m, a, entitlement_a);
    lemma_lowest_pass_bound(m.entitle(a, entitlement_a));
    assert(m.entitle(a, entitlement_a).classes.contains_key(a));
    lemma_same_lowest_pass(m.entitle(a, entitlement_a), once);
    assert(class_only_admits(m.entitle(a, entitlement_a), once, a));
    let again = once.entitle(b, entitlement_b);
    assert(again.classes.contains_key(a) && again.classes.contains_key(b));
    assert(class_only_admits(again, twice, a));
    assert(class_only_admits(again, twice, b));
    lemma_equal_is_level(twice, k, d, a, b);
}

/// Filling the free slots leaves the lowest pass where it was.
proof fn lemma_same_lowest_pass(m: SchedulerModel, n: SchedulerModel)
    requires
        only_admits(m, n),
        exists|c: u32| #[trigger] m.classes.contains_key(c) && m.classes[c].pass == m.lowest_pass(),
        forall|c: u32| #[trigger]
            m.classes.contains_key(c) ==> m.lowest_pass() <= m.classes[c].pass,
    ensures
        n.lowest_pass() == m.lowest_pass(),
{
    let c = choose|c: u32| #[trigger]
        m.classes.contains_key(c) && m.classes[c].pass == m.lowest_pass();
    assert(class_only_admits(m, n, c));
    assert(n.classes.contains_key(c));
    assert(n.is_lowest_pass(m.lowest_pass())) by {
        assert forall|e: u32| #[trigger] n.classes.contains_key(e) implies m.lowest_pass()
            <= n.classes[e].pass by {
            assert(m.classes.contains_key(e));
            assert(class_only_admits(m, n, e));
        }
    }
    lemma_lowest_pass(n, m.lowest_pass());
}

/// Serving the class with the lowest pass keeps `a` within reach of `b`.
proof fn lemma_serve_within(
    m: SchedulerModel,
    c: u32,
    now: u64,
    k: nat,
    d: nat,
    a: u32,
    b: u32,
)
    requires
        m.consistent(),
        m.backlogged(c),
        m.is_first(c),
        m.active < m.max_concurrent_polls <= k,
        m.classes.contains_key(a),
        m.backlogged(b),
        within(m, k, d, a, b),
    ensures
        within(m.serve(c, now), k, d, a, b),
{
    let n = m.serve(c, now);
    let id = m.classes[c].queue[0];
    assert(m.queue_ok(c));
    lemma_serve(m, c, now);
    lemma_put_task(m, id, n.tasks[id]);
    assert(n.tasks == m.put_task(id, n.tasks[id]).tasks);
    assert(n.holders_in(a) == m.put_task(id, n.tasks[id]).holders_in(a));
    lemma_holders_in(n, a);
    lemma_times(n.holders_in(a).len(), k, d);
}

/// Filling the free slots keeps `a` within reach of `b`.
proof fn lemma_dispatch_within(m: SchedulerModel, now: u64, k: nat, d: nat, a: u32, b: u32)
    requires
        m.consistent(),
        m.max_concurrent_polls <= k,
        m.classes.contains_key(a),
        m.classes.contains_key(b),
        m.dispatch(now).0.backlogged(b),
        within(m, k, d, a, b),
    ensures
        within(m.dispatch(now).0, k, d, a, b),
    decreases m.waiting().len(),
{
    if m.active < m.max_concurrent_polls && m.next_class() is Some {
        let c = m.next_class()->0;
        lemma_next_class(m, c);
        lemma_serve(m, c, now);
        lemma_serve_shrinks(m, c, now);
        law_dispatch_only_admits(m, now);
        assert(class_only_admits(m, m.dispatch(now).0, b));
        lemma_serve_within(m, c, now, k, d, a, b);
        lemma_dispatch_within(m.serve(c, now), now, k, d, a, b);
    }
}

/// Before the free slots are filled nobody gets a slot, and a poll that ends gives
/// one back.
proof fn lemma_holders_before(m: SchedulerModel, op: Operation, c: u32)
    requires
        m.wf(),
        m.allows(op),
    ensures
        m.before_dispatch(op).holders_in(c).len() + (if time_charged(m, op, c) is Some {
            1int
        } else {
            0
        }) <= m.holders_in(c).len(),
{
    let before = m.before_dispatch(op);
    lemma_matching_insert(m.tasks, 0, TaskControl::fresh(TaskClass::of(0), 0), is_holder_in(c));
    match op {
        Operation::EntitleAll { weights, .. } => {
            lemma_entitle_all_moves_on(m, weights);
        },
        _ => {},
    }
    assert(before.holders_in(c).subset_of(m.holders_in(c)));
    vstd::set_lib::lemma_len_subset(before.holders_in(c), m.holders_in(c));
    if time_charged(m, op, c) is Some {
        let id = match op {
            Operation::FinishPending { id, .. } => id,
            Operation::FinishReady { id, .. } => id,
            _ => 0,
        };
        let others = m.holders_in(c).remove(id);
        assert(m.holders_in(c).contains(id));
        assert(before.holders_in(c).subset_of(others));
        vstd::set_lib::lemma_len_subset(before.holders_in(c), others);
    }
}

/// What happens before the free slots are filled keeps `a` within reach of `b`.
proof fn lemma_before_within(m: SchedulerModel, op: Operation, k: nat, d: nat, a: u32, b: u32)
    requires
        m.wf(),
        m.allows(op),
        m.backlogged(a),
        m.backlogged(b),
        keeps_pace(m, op, k, d, a),
        keeps_pace(m, op, k, d, b),
        within(m, k, d, a, b),
    ensures
        within(m.before_dispatch(op), k, d, a, b),
        m.before_dispatch(op).classes.contains_key(a),
        m.before_dispatch(op).classes.contains_key(b),
{
    let before = m.before_dispatch(op);
    let n = m.after(op);
    lemma_after(m, op);
    law_dispatch_only_admits(before, moment(op));
    law_moves_on(m, op);
    law_pass_is_charged_time(m, op, a);
    law_pass_is_charged_time(m, op, b);
    assert(n.classes.contains_key(a) && n.classes.contains_key(b));
    assert(before.classes.contains_key(a) && before.classes.contains_key(b));
    assert(class_only_admits(before, n, a));
    assert(class_only_admits(before, n, b));
    lemma_holders_before(m, op, a);
    let h = before.holders_in(a).len();
    lemma_times(h, m.holders_in(a).len(), d);
    if time_charged(m, op, a) is Some {
        lemma_times(h + 1, m.holders_in(a).len(), d);
    }
}

/// Two classes that are level stay so as long as both have tasks waiting, no poll
/// is charged more than `d`, no more than `k` polls are allowed at a time, and
/// neither class is entitled anew.
pub proof fn law_level_is_kept(m: SchedulerModel, op: Operation, k: nat, d: nat, a: u32, b: u32)
    requires
        m.wf(),
        m.allows(op),
        m.max_concurrent_polls <= k,
        m.backlogged(a),
        m.backlogged(b),
        m.after(op).backlogged(a),
        m.after(op).backlogged(b),
        keeps_pace(m, op, k, d, a),
        keeps_pace(m, op, k, d, b),
        level(m, k, d, a, b),
    ensures
        level(m.after(op), k, d, a, b),
{
    lemma_after(m, op);
    lemma_limit_stays(m, op);
    lemma_before_within(m, op, k, d, a, b);
    lemma_before_within(m, op, k, d, b, a);
    lemma_dispatch_within(m.before_dispatch(op), moment(op), k, d, a, b);
    lemma_dispatch_within(m.before_dispatch(op), moment(op), k, d, b, a);
}

/// Whether two classes compete when something happens: both have tasks waiting,
/// and the operation leaves them their entitlements, leaves the scheduler `k`
/// slots and charges no more than `d`.
pub open spec fn competes(
    m: SchedulerModel,
    op: Operation,
    k: usize,
    d: nat,
    a: u32,
    b: u32,
) -> bool {
    &&& m.backlogged(a)
    &&& m.backlogged(b)
    &&& keeps_pace(m, op, k as nat, d, a)
    &&& keeps_pace(m, op, k as nat, d, b)
    &&& op matches Operation::Limit { max_concurrent_polls, .. } ==> max_concurrent_polls == k
}

/// Whether two classes compete all the time while several things happen.
pub open spec fn compete(
    m: SchedulerModel,
    ops: Seq<Operation>,
    k: usize,
    d: nat,
    a: u32,
    b: u32,
) -> bool {
    &&& forall|i: int|
        0 <= i < ops.len() ==> competes(run(m, ops.take(i)), #[trigger] ops[i], k, d, a, b)
    &&& run(m, ops).backlogged(a)
    &&& run(m, ops).backlogged(b)
}

/// How many polls are charged to a class while several things happen.
pub open spec fn polls_charged(m: SchedulerModel, ops: Seq<Operation>, c: u32) -> nat
    decreases ops.len(),
{
    if ops.len() == 0 {
        0
    } else {
        let rest = ops.drop_last();
        polls_charged(m, rest, c) + (if time_charged(run(m, rest), ops.last(), c) is Some {
            1nat
        } else {
            0
        })
    }
}

/// The execution time of a class between two moments.
pub open spec fn time_used(m: SchedulerModel, n: SchedulerModel, c: u32) -> int {
    n.classes[c].stats.total_exec_time - m.classes[c].stats.total_exec_time
}

/// How far the pass of a class advances between two moments.
pub open spec fn advanced(m: SchedulerModel, n: SchedulerModel, c: u32) -> int {
    n.classes[c].pass - m.classes[c].pass
}

/// What holds of a run holds of its beginning.
proof fn lemma_compete_take(
    m: SchedulerModel,
    ops: Seq<Operation>,
    k: usize,
    d: nat,
    a: u32,
    b: u32,
)
    requires
        ops.len() > 0,
        compete(m, ops, k, d, a, b),
    ensures
        compete(m, ops.drop_last(), k, d, a, b),
        competes(run(m, ops.drop_last()), ops.last(), k, d, a, b),
{
    let rest = ops.drop_last();
    assert forall|i: int| 0 <= i < rest.len() implies competes(
        run(m, rest.take(i)),
        #[trigger] rest[i],
        k,
        d,
        a,
        b,
    ) by {
        assert(rest[i] == ops[i]);
        assert(rest.take(i) =~= ops.take(i));
    }
    assert(ops.take(ops.len() - 1) =~= rest);
    assert(ops[ops.len() - 1] == ops.last());
}

/// While two classes compete all slots are taken, and the two stay level.
proof fn lemma_compete_level(
    m: SchedulerModel,
    ops: Seq<Operation>,
    k: usize,
    d: nat,
    a: u32,
    b: u32,
)
    requires
        m.wf(),
        m.active <= m.max_concurrent_polls == k,
        runs(m, ops),
        compete(m, ops, k, d, a, b),
        level(m, k as nat, d, a, b),
    ensures
        run(m, ops).wf(),
        run(m, ops).active == k,
        run(m, ops).max_concurrent_polls == k,
        level(run(m, ops), k as nat, d, a, b),
    decreases ops.len(),
{
    if ops.len() > 0 {
        let rest = ops.drop_last();
        let before = run(m, rest);
        lemma_run_take(m, ops);
        lemma_compete_take(m, ops, k, d, a, b);
        lemma_compete_level(m, rest, k, d, a, b);
        law_order_is_kept(before, ops.last());
        lemma_limit_stays(before, ops.last());
        law_limit_is_respected(before, ops.last());
        law_level_is_kept(before, ops.last(), k as nat, d, a, b);
    }
}

/// The charge for a poll is its time over the entitlement, rounded down.
proof fn lemma_charge_rounds(t: nat, millicores: nat, k: nat)
    requires
        millicores > 0,
        k > 0,
    ensures
        millicores * k * charge(t, millicores, k) <= t * (TIME_SCALE * MILLICORES_PER_CORE),
        t * (TIME_SCALE * MILLICORES_PER_CORE) <= millicores * k * (charge(t, millicores, k) + 1),
{
    let w = millicores * k;
    assert(w > 0) by (nonlinear_arith)
        requires
            millicores > 0,
            k > 0,
            w == millicores * k,
    ;
    let work = t * (TIME_SCALE as nat) * (MILLICORES_PER_CORE as nat);
    assert(work == t * (TIME_SCALE * MILLICORES_PER_CORE)) by (nonlinear_arith)
        requires
            work == t * (TIME_SCALE as nat) * (MILLICORES_PER_CORE as nat),
    ;
    vstd::arithmetic::div_mod::lemma_fundamental_div_mod(work as int, w as int);
    vstd::arithmetic::div_mod::lemma_mod_bound(work as int, w as int);
    assert(w * (work / w + 1) == w * (work / w) + w) by (nonlinear_arith);
}

/// Whether between two moments a class was charged for its execution time, over
/// its entitlement and the `k` slots, up to the rounding of `count` charges.
pub open spec fn is_charged(
    m: SchedulerModel,
    n: SchedulerModel,
    c: u32,
    k: usize,
    count: nat,
) -> bool {
    let scale: int = TIME_SCALE * MILLICORES_PER_CORE;
    let share: int = m.classes[c].millicores * k;
    &&& n.classes[c].millicores == m.classes[c].millicores
    &&& m.classes[c].pass <= n.classes[c].pass
    &&& share * advanced(m, n, c) <= time_used(m, n, c) * scale
    &&& n.classes[c].pass < u128::MAX ==> time_used(m, n, c) * scale <= share * (advanced(m, n, c)
        + count)
}

/// What is charged in two spans of time is charged in both together.
proof fn lemma_is_charged_twice(
    m: SchedulerModel,
    o: SchedulerModel,
    n: SchedulerModel,
    c: u32,
    k: usize,
    count: nat,
    more: nat,
)
    requires
        is_charged(m, o, c, k, count),
        is_charged(o, n, c, k, more),
    ensures
        is_charged(m, n, c, k, count + more),
{
    let scale: int = TIME_SCALE * MILLICORES_PER_CORE;
    let share: int = m.classes[c].millicores * k;
    let x: int = advanced(m, o, c);
    let y: int = advanced(o, n, c);
    let t: int = time_used(m, o, c);
    let u: int = time_used(o, n, c);
    assert(share * (x + y) <= (t + u) * scale) by (nonlinear_arith)
        requires
            share * x <= t * scale,
            share * y <= u * scale,
    ;
    if n.classes[c].pass < u128::MAX {
        let sum: int = x + count;
        let step: int = y + more;
        assert((t + u) * scale <= share * (sum + step)) by (nonlinear_arith)
            requires
                t * scale <= share * sum,
                u * scale <= share * step,
        ;
        assert(sum + step == advanced(m, n, c) + (count + more));
    }
}

/// When all slots are taken, a class with waiting tasks is charged for what it
/// uses.
proof fn lemma_step_charged(m: SchedulerModel, op: Operation, k: usize, c: u32)
    requires
        m.wf(),
        m.allows(op),
        m.active == k > 0,
        m.backlogged(c),
        !entitles(op, c),
    ensures
        is_charged(
            m,
            m.after(op),
            c,
            k,
            if time_charged(m, op, c) is Some {
                1
            } else {
                0
            },
        ),
{
    law_pass_is_charged_time(m, op, c);
    assert(m.class_ok(c));
    let share: int = m.classes[c].millicores * k;
    assert(share >= 0) by (nonlinear_arith)
        requires
            share == m.classes[c].millicores * k,
    ;
    match time_charged(m, op, c) {
        Some(t) => {
            let q: int = charge(t as nat, m.classes[c].millicores as nat, k as nat) as int;
            lemma_charge_rounds(t as nat, m.classes[c].millicores as nat, k as nat);
            let x: int = advanced(m, m.after(op), c);
            assert(share * x <= share * q) by (nonlinear_arith)
                requires
                    share >= 0,
                    x <= q,
            ;
        },
        None => {
            assert(share * 0 == 0) by (nonlinear_arith);
        },
    }
}

/// While two classes compete, either is charged for what it uses.
proof fn lemma_compete_charged(
    m: SchedulerModel,
    ops: Seq<Operation>,
    k: usize,
    d: nat,
    a: u32,
    b: u32,
    c: u32,
)
    requires
        m.wf(),
        m.active <= m.max_concurrent_polls == k,
        runs(m, ops),
        compete(m, ops, k, d, a, b),
        level(m, k as nat, d, a, b),
        c == a || c == b,
    ensures
        is_charged(m, run(m, ops), c, k, polls_charged(m, ops, c)),
    decreases ops.len(),
{
    if ops.len() == 0 {
        let share: int = m.classes[c].millicores * k;
        assert(share * 0 == 0) by (nonlinear_arith);
    } else {
        let rest = ops.drop_last();
        let before = run(m, rest);
        lemma_run_take(m, ops);
        lemma_compete_take(m, ops, k, d, a, b);
        lemma_compete_level(m, rest, k, d, a, b);
        lemma_compete_charged(m, rest, k, d, a, b, c);
        lemma_step_charged(before, ops.last(), k, c);
        let count = polls_charged(m, rest, c);
        let more: nat = if time_charged(before, ops.last(), c) is Some {
            1
        } else {
            0
        };
        lemma_is_charged_twice(m, before, run(m, ops), c, k, count, more);
    }
}

/// Classes that compete share the execution time by their entitlements: while both
/// have tasks waiting, each milli-core of one gets as much of it as each of the
/// other, up to a bound that does not depend on how long they compete, apart from
/// the rounding of each charge by less than one unit.
///
/// The units are those of the passes: the fixed-point scale times one thousand to
/// the nanosecond. With `k` slots, all of which are taken while classes compete,
/// and with no charge above `d`, the bound is that of two times `k` charges.
pub proof fn law_execution_time_is_shared(
    m: SchedulerModel,
    ops: Seq<Operation>,
    k: usize,
    d: nat,
    a: u32,
    b: u32,
)
    requires
        m.wf(),
        m.active <= m.max_concurrent_polls == k,
        runs(m, ops),
        compete(m, ops, k, d, a, b),
        level(m, k as nat, d, a, b),
        run(m, ops).classes[a].pass < u128::MAX,
    ensures
        m.classes[b].millicores * (time_used(m, run(m, ops), a) * (TIME_SCALE
            * MILLICORES_PER_CORE)) <= m.classes[a].millicores * (time_used(m, run(m, ops), b) * (
        TIME_SCALE * MILLICORES_PER_CORE)) + m.classes[a].millicores * m.classes[b].millicores * k
            * (2 * k * d + polls_charged(m, ops, a)),
{
    let n = run(m, ops);
    lemma_compete_level(m, ops, k, d, a, b);
    lemma_compete_charged(m, ops, k, d, a, b, a);
    lemma_compete_charged(m, ops, k, d, a, b, b);
    lemma_times(0, m.holders_in(b).len(), d);
    lemma_times(0, n.holders_in(a).len(), d);
    let scale: int = TIME_SCALE * MILLICORES_PER_CORE;
    let share_a: int = m.classes[a].millicores as int;
    let share_b: int = m.classes[b].millicores as int;
    let time_a: int = time_used(m, n, a) * scale;
    let time_b: int = time_used(m, n, b) * scale;
    let pass_a: int = advanced(m, n, a);
    let pass_b: int = advanced(m, n, b);
    let count: int = polls_charged(m, ops, a) as int;
    let slack: int = 2 * k * d;
    assert(pass_a <= pass_b + slack) by (nonlinear_arith)
        requires
            pass_a == n.classes[a].pass - m.classes[a].pass,
            pass_b == n.classes[b].pass - m.classes[b].pass,
            n.classes[a].pass <= n.classes[b].pass + k * d,
            m.classes[b].pass <= m.classes[a].pass + k * d,
            slack == 2 * k * d,
    ;
    lemma_weigh(share_a, share_b, k as int, time_a, time_b, pass_a, pass_b, slack, count);
}

/// The arithmetic of weighing one class against another.
proof fn lemma_weigh(
    share_a: int,
    share_b: int,
    k: int,
    time_a: int,
    time_b: int,
    pass_a: int,
    pass_b: int,
    slack: int,
    count: int,
)
    requires
        share_a >= 0,
        share_b >= 0,
        k >= 0,
        time_a <= share_a * k * (pass_a + count),
        share_b * k * pass_b <= time_b,
        pass_a <= pass_b + slack,
    ensures
        share_b * time_a <= share_a * time_b + share_a * share_b * k * (slack + count),
{
    let w = share_a * k;
    assert(w >= 0) by (nonlinear_arith)
        requires
            share_a >= 0,
            k >= 0,
            w == share_a * k,
    ;
    assert(time_a <= w * (pass_b + slack + count)) by (nonlinear_arith)
        requires
            w >= 0,
            time_a <= w * (pass_a + count),
            pass_a <= pass_b + slack,
    ;
    assert(share_b * time_a <= share_b * (w * (pass_b + slack + count))) by (nonlinear_arith)
        requires
            share_b >= 0,
            time_a <= w * (pass_b + slack + count),
    ;
    let u = share_a * share_b * k;
    let rest = slack + count;
    assert(share_b * (share_a * k) == u) by (nonlinear_arith)
        requires
            u == share_a * share_b * k,
    ;
    assert(share_b * (w * (pass_b + rest)) == (share_b * w) * pass_b + (share_b * w) * rest)
        by (nonlinear_arith);
    assert(share_a * (share_b * k * pass_b) == u * pass_b) by (nonlinear_arith)
        requires
            u == share_a * share_b * k,
    ;
    assert(share_a * (share_b * k * pass_b) <= share_a * time_b) by (nonlinear_arith)
        requires
            share_a >= 0,
            share_b * k * pass_b <= time_b,
    ;
}

} // verus!
