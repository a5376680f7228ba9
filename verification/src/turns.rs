//! How two classes take turns when every charge divides evenly.

use vstd::prelude::*;

use crate::class::{Entitlement, MILLICORES_PER_CORE};
use crate::fairness::{
    entitles, law_pass_is_charged_time, law_weight_counts_as_cores, lemma_run_take, run, runs,
    time_charged,
};
use crate::invariants::{lemma_free_slot, lemma_serve};
use crate::laws::{
    class_only_admits, law_dispatch_only_admits, law_dispatch_stops, law_limit_is_respected,
    law_moves_on, law_order_is_kept, lemma_after, lemma_entitle_all_moves_on, lemma_limit_stays,
    lemma_matching_finite, moment, Operation,
};
use crate::model::{charge, lemma_next_class, lemma_serve_shrinks, SchedulerModel, TIME_SCALE};
use crate::shares::polls_charged;

verus! {

/// Whether the slots are held by tasks of the two classes alone, each of a class
/// whose turn it is: its pass is no higher than that of the other.
pub open spec fn in_turn(m: SchedulerModel, a: u32, b: u32) -> bool {
    forall|id: u64| #[trigger]
        m.holders().contains(id) ==> {
            ||| m.tasks[id].class@ == a && m.classes[a].pass <= m.classes[b].pass
            ||| m.tasks[id].class@ == b && m.classes[b].pass <= m.classes[a].pass
        }
}

/// Whether tasks of the two classes are waiting, and of no other.
pub open spec fn only_these_wait(m: SchedulerModel, a: u32, b: u32) -> bool {
    &&& m.backlogged(a)
    &&& m.backlogged(b)
    &&& forall|c: u32| #[trigger] m.backlogged(c) ==> c == a || c == b
}

/// Whether an operation lets two classes take turns at one slot: it leaves them
/// their entitlements and the scheduler its single slot, and a poll that ends was
/// not aborted and took `t`.
pub open spec fn takes_turns(m: SchedulerModel, op: Operation, t: u64, a: u32, b: u32) -> bool {
    &&& only_these_wait(m, a, b)
    &&& !entitles(op, a)
    &&& !entitles(op, b)
    &&& match op {
        Operation::FinishPending { id, exec_time, .. } => m.phase(id).holds_slot() ==> exec_time
            == Some(t),
        Operation::FinishReady { id, exec_time, .. } => m.phase(id).holds_slot() ==> exec_time
            == Some(t),
        Operation::Cancel { id, .. } => !m.phase(id).holds_slot(),
        Operation::Limit { max_concurrent_polls, .. } => max_concurrent_polls == 1,
        _ => true,
    }
}

/// Whether two classes take turns all the time while several things happen.
pub open spec fn take_turns(
    m: SchedulerModel,
    ops: Seq<Operation>,
    t: u64,
    a: u32,
    b: u32,
) -> bool {
    &&& forall|i: int|
        0 <= i < ops.len() ==> takes_turns(run(m, ops.take(i)), #[trigger] ops[i], t, a, b)
    &&& only_these_wait(run(m, ops), a, b)
}

/// Filling the free slot gives it to the class whose turn it is.
proof fn lemma_dispatch_in_turn(m: SchedulerModel, now: u64, a: u32, b: u32)
    requires
        m.consistent(),
        in_turn(m, a, b),
        m.classes.contains_key(a),
        m.classes.contains_key(b),
        forall|c: u32| #[trigger] m.backlogged(c) ==> c == a || c == b,
        m.dispatch(now).0.backlogged(a),
        m.dispatch(now).0.backlogged(b),
    ensures
        in_turn(m.dispatch(now).0, a, b),
    decreases m.waiting().len(),
{
    if m.active < m.max_concurrent_polls && m.next_class() is Some {
        let c = m.next_class()->0;
        let n = m.serve(c, now);
        let id = m.classes[c].queue[0];
        lemma_next_class(m, c);
        lemma_serve(m, c, now);
        lemma_serve_shrinks(m, c, now);
        law_dispatch_only_admits(m, now);
        assert(class_only_admits(m, m.dispatch(now).0, a));
        assert(class_only_admits(m, m.dispatch(now).0, b));
        assert(m.backlogged(a) && m.backlogged(b));
        assert(m.queue_ok(c));
        assert forall|x: u64| #[trigger] n.holders().contains(x) implies {
            ||| n.tasks[x].class@ == a && n.classes[a].pass <= n.classes[b].pass
            ||| n.tasks[x].class@ == b && n.classes[b].pass <= n.classes[a].pass
        } by {
            if x != id {
                assert(m.holders().contains(x));
            }
        }
        assert forall|d: u32| #[trigger] n.backlogged(d) implies d == a || d == b by {
            assert(m.backlogged(d));
        }
        lemma_dispatch_in_turn(n, now, a, b);
    }
}

/// The task whose poll an operation ends, if any.
spec fn ended(m: SchedulerModel, op: Operation) -> Option<u64> {
    match op {
        Operation::FinishPending { id, .. } => if m.phase(id).holds_slot() {
            Some(id)
        } else {
            None
        },
        Operation::FinishReady { id, .. } => if m.phase(id).holds_slot() {
            Some(id)
        } else {
            None
        },
        _ => None,
    }
}

/// Before the free slot is filled, its holder keeps it or gives it back.
proof fn lemma_holders_in_turn(m: SchedulerModel, op: Operation, t: u64, a: u32, b: u32)
    requires
        m.wf(),
        m.allows(op),
        m.active == 1,
        takes_turns(m, op, t, a, b),
    ensures
        match ended(m, op) {
            Some(id) => {
                &&& m.before_dispatch(op).active == 0
                &&& m.before_dispatch(op).holders() == Set::<u64>::empty()
                &&& forall|c: u32| #[trigger]
                    m.before_dispatch(op).backlogged(c) ==> m.backlogged(c) || c
                        == m.tasks[id].class@
            },
            None => {
                &&& m.before_dispatch(op).active == 1
                &&& forall|x: u64| #[trigger]
                    m.before_dispatch(op).holders().contains(x) ==> m.holders().contains(x)
                        && m.before_dispatch(op).tasks[x].class@ == m.tasks[x].class@
            },
        },
{
    let before = m.before_dispatch(op);
    match op {
        Operation::EntitleAll { weights, .. } => {
            lemma_entitle_all_moves_on(m, weights);
        },
        _ => {},
    }
    if let Some(id) = ended(m, op) {
        lemma_matching_finite(m);
        lemma_free_slot(m, id);
        let others = m.holders().remove(id);
        assert(m.holders().contains(id));
        assert(others.len() == 0);
        assert(others =~= Set::empty());
        assert forall|x: u64| !before.holders().contains(x) by {
            if before.holders().contains(x) {
                assert(others.contains(x));
            }
        }
        assert(before.holders() =~= Set::empty());
    }
}

/// While two classes take turns, the one slot is always taken, by the class whose
/// turn it is.
proof fn lemma_step_in_turn(m: SchedulerModel, op: Operation, t: u64, a: u32, b: u32)
    requires
        m.wf(),
        m.allows(op),
        m.max_concurrent_polls == 1,
        m.active == 1,
        in_turn(m, a, b),
        takes_turns(m, op, t, a, b),
        only_these_wait(m.after(op), a, b),
    ensures
        m.after(op).wf(),
        m.after(op).max_concurrent_polls == 1,
        m.after(op).active == 1,
        in_turn(m.after(op), a, b),
{
    let before = m.before_dispatch(op);
    let n = m.after(op);
    lemma_after(m, op);
    law_order_is_kept(m, op);
    lemma_limit_stays(m, op);
    law_limit_is_respected(m, op);
    law_moves_on(m, op);
    law_dispatch_only_admits(before, moment(op));
    law_pass_is_charged_time(m, op, a);
    law_pass_is_charged_time(m, op, b);
    lemma_holders_in_turn(m, op, t, a, b);
    assert(before.classes.contains_key(a) && before.classes.contains_key(b));
    assert(class_only_admits(before, n, a));
    assert(class_only_admits(before, n, b));
    match ended(m, op) {
        Some(id) => {
            assert(m.holders().contains(id));
            assert forall|c: u32| #[trigger] before.backlogged(c) implies c == a || c == b by {}
            lemma_dispatch_in_turn(before, moment(op), a, b);
        },
        None => {
            law_dispatch_stops(before, moment(op));
        },
    }
}

/// How many polls of two classes make up `r` rounds and part of another, where a
/// round is `wa` polls of the one and `wb` of the other.
spec fn in_round(x: nat, y: nat, wa: nat, wb: nat, r: nat) -> bool {
    &&& r * wa <= x <= (r + 1) * wa
    &&& r * wb <= y <= (r + 1) * wb
}

/// The class whose turn it is has not made all its polls of the round, unless the
/// round is over.
proof fn lemma_next_in_round(x: nat, y: nat, wa: nat, wb: nat, qa: nat, qb: nat, r: nat) -> (s: nat)
    requires
        in_round(x, y, wa, wb, r),
        wa > 0,
        wb > 0,
        qb > 0,
        wa * qa == wb * qb,
        x * qa <= y * qb,
    ensures
        in_round(x + 1, y, wa, wb, s),
{
    if x < (r + 1) * wa {
        r
    } else {
        let all = (r + 1) * wb;
        assert(x * qa == (r + 1) * (wa * qa)) by (nonlinear_arith)
            requires
                x == (r + 1) * wa,
        ;
        assert(all * qb == (r + 1) * (wb * qb)) by (nonlinear_arith)
            requires
                all == (r + 1) * wb,
        ;
        assert(all <= y) by (nonlinear_arith)
            requires
                all * qb <= y * qb,
                qb > 0,
        ;
        assert((r + 1 + 1) * wa == (r + 1) * wa + wa) by (nonlinear_arith);
        assert((r + 1 + 1) * wb == (r + 1) * wb + wb) by (nonlinear_arith);
        r + 1
    }
}

/// What is known of two classes that take turns: their passes are the charges of
/// their polls, and their polls make up rounds.
spec fn counted(
    m: SchedulerModel,
    n: SchedulerModel,
    a: u32,
    b: u32,
    qa: nat,
    qb: nat,
    x: nat,
    y: nat,
) -> bool {
    &&& n.wf()
    &&& n.max_concurrent_polls == 1
    &&& n.active == 1
    &&& in_turn(n, a, b)
    &&& n.classes[a].millicores == m.classes[a].millicores
    &&& n.classes[b].millicores == m.classes[b].millicores
    &&& n.classes[a].pass == m.classes[a].pass + x * qa
    &&& n.classes[b].pass == m.classes[b].pass + y * qb
}

/// One more step of two classes that take turns.
proof fn lemma_step_counted(
    m: SchedulerModel,
    o: SchedulerModel,
    op: Operation,
    t: u64,
    a: u32,
    b: u32,
    qa: nat,
    qb: nat,
    x: nat,
    y: nat,
)
    requires
        a != b,
        o.allows(op),
        counted(m, o, a, b, qa, qb, x, y),
        qa == charge(t as nat, m.classes[a].millicores as nat, 1),
        qb == charge(t as nat, m.classes[b].millicores as nat, 1),
        takes_turns(o, op, t, a, b),
        only_these_wait(o.after(op), a, b),
        o.after(op).classes[a].pass < u128::MAX,
        o.after(op).classes[b].pass < u128::MAX,
    ensures
        counted(
            m,
            o.after(op),
            a,
            b,
            qa,
            qb,
            x + (if time_charged(o, op, a) is Some {
                1nat
            } else {
                0
            }),
            y + (if time_charged(o, op, b) is Some {
                1nat
            } else {
                0
            }),
        ),
        time_charged(o, op, a) is Some ==> o.classes[a].pass <= o.classes[b].pass
            && time_charged(o, op, b) is None,
        time_charged(o, op, b) is Some ==> o.classes[b].pass <= o.classes[a].pass
            && time_charged(o, op, a) is None,
{
    lemma_step_in_turn(o, op, t, a, b);
    law_pass_is_charged_time(o, op, a);
    law_pass_is_charged_time(o, op, b);
    assert((x + 1) * qa == x * qa + qa) by (nonlinear_arith);
    assert((y + 1) * qb == y * qb + qb) by (nonlinear_arith);
    if let Some(id) = ended(o, op) {
        assert(o.holders().contains(id));
    }
}

/// Two classes that take turns make their polls in rounds.
proof fn lemma_run_counted(
    m: SchedulerModel,
    ops: Seq<Operation>,
    t: u64,
    a: u32,
    b: u32,
    wa: nat,
    wb: nat,
    qa: nat,
    qb: nat,
) -> (r: nat)
    requires
        a != b,
        counted(m, m, a, b, qa, qb, 0, 0),
        m.classes[a].pass == m.classes[b].pass,
        wa > 0,
        wb > 0,
        qa > 0,
        qb > 0,
        wa * qa == wb * qb,
        qa == charge(t as nat, m.classes[a].millicores as nat, 1),
        qb == charge(t as nat, m.classes[b].millicores as nat, 1),
        runs(m, ops),
        take_turns(m, ops, t, a, b),
        run(m, ops).classes[a].pass < u128::MAX,
        run(m, ops).classes[b].pass < u128::MAX,
    ensures
        counted(
            m,
            run(m, ops),
            a,
            b,
            qa,
            qb,
            polls_charged(m, ops, a),
            polls_charged(m, ops, b),
        ),
        in_round(polls_charged(m, ops, a), polls_charged(m, ops, b), wa, wb, r),
    decreases ops.len(),
{
    if ops.len() == 0 {
        assert(0 * wa == 0 && 0 * wb == 0 && (0 + 1) * wa == wa && (0 + 1) * wb == wb)
            by (nonlinear_arith);
        0
    } else {
        let rest = ops.drop_last();
        let op = ops.last();
        let o = run(m, rest);
        lemma_run_take(m, ops);
        lemma_take_turns_take(m, ops, t, a, b);
        lemma_run_in_turn(m, rest, t, a, b);
        law_pass_is_charged_time(o, op, a);
        law_pass_is_charged_time(o, op, b);
        let r = lemma_run_counted(m, rest, t, a, b, wa, wb, qa, qb);
        let x = polls_charged(m, rest, a);
        let y = polls_charged(m, rest, b);
        lemma_step_counted(m, o, op, t, a, b, qa, qb, x, y);
        if time_charged(o, op, a) is Some {
            lemma_next_in_round(x, y, wa, wb, qa, qb, r)
        } else if time_charged(o, op, b) is Some {
            lemma_next_in_round(y, x, wb, wa, qb, qa, r)
        } else {
            r
        }
    }
}

/// What holds of a run holds of its beginning.
proof fn lemma_take_turns_take(m: SchedulerModel, ops: Seq<Operation>, t: u64, a: u32, b: u32)
    requires
        ops.len() > 0,
        take_turns(m, ops, t, a, b),
    ensures
        take_turns(m, ops.drop_last(), t, a, b),
        takes_turns(run(m, ops.drop_last()), ops.last(), t, a, b),
{
    let rest = ops.drop_last();
    assert forall|i: int| 0 <= i < rest.len() implies takes_turns(
        run(m, rest.take(i)),
        #[trigger] rest[i],
        t,
        a,
        b,
    ) by {
        assert(rest[i] == ops[i]);
        assert(rest.take(i) =~= ops.take(i));
    }
    assert(ops.take(ops.len() - 1) =~= rest);
    assert(ops[ops.len() - 1] == ops.last());
}

/// Two classes that take turns go on doing so.
proof fn lemma_run_in_turn(m: SchedulerModel, ops: Seq<Operation>, t: u64, a: u32, b: u32)
    requires
        m.wf(),
        m.max_concurrent_polls == 1,
        m.active == 1,
        in_turn(m, a, b),
        runs(m, ops),
        take_turns(m, ops, t, a, b),
    ensures
        run(m, ops).wf(),
        run(m, ops).max_concurrent_polls == 1,
        run(m, ops).active == 1,
        in_turn(run(m, ops), a, b),
    decreases ops.len(),
{
    if ops.len() > 0 {
        lemma_run_take(m, ops);
        lemma_take_turns_take(m, ops, t, a, b);
        lemma_run_in_turn(m, ops.drop_last(), t, a, b);
        lemma_step_in_turn(run(m, ops.drop_last()), ops.last(), t, a, b);
    }
}

/// A charge that divides evenly is the time, scaled, over the weight.
proof fn lemma_even_charge(t: nat, weight: nat) -> (q: nat)
    requires
        t > 0,
        weight > 0,
        (t * TIME_SCALE) % (weight as int) == 0,
    ensures
        q == charge(t, weight * (MILLICORES_PER_CORE as nat), 1),
        weight * q == t * TIME_SCALE,
        q > 0,
{
    let q = charge(t, weight * (MILLICORES_PER_CORE as nat), 1);
    let work: int = t * TIME_SCALE;
    law_weight_counts_as_cores(t, weight, 1);
    assert(work > 0) by (nonlinear_arith)
        requires
            t > 0,
            work == t * TIME_SCALE,
            TIME_SCALE == 4_294_967_296,
    ;
    assert(weight * 1 == weight) by (nonlinear_arith);
    vstd::arithmetic::div_mod::lemma_fundamental_div_mod(work, weight as int);
    assert(q > 0) by (nonlinear_arith)
        requires
            weight * q == work,
            work > 0,
    ;
    q
}

/// Classes of weights `wa` and `wb` that take turns at one slot make their polls in
/// rounds of `wa` and `wb`, where all polls take the same time and each charge
/// divides evenly: after every `wa + wb` polls, counted from a moment at which
/// their passes are equal, exactly `wa` of them were of the one class and `wb` of
/// the other, and the passes are equal again.
pub proof fn law_polls_come_in_rounds(
    m: SchedulerModel,
    ops: Seq<Operation>,
    t: u64,
    a: u32,
    b: u32,
    wa: u32,
    wb: u32,
    r: nat,
)
    requires
        m.wf(),
        m.max_concurrent_polls == 1,
        m.active == 1,
        a != b,
        in_turn(m, a, b),
        m.classes[a].pass == m.classes[b].pass,
        m.classes[a].entitlement() == Entitlement::weighted(wa),
        m.classes[b].entitlement() == Entitlement::weighted(wb),
        wa > 0,
        wb > 0,
        t > 0,
        (t * TIME_SCALE) % (wa as int) == 0,
        (t * TIME_SCALE) % (wb as int) == 0,
        runs(m, ops),
        take_turns(m, ops, t, a, b),
        run(m, ops).classes[a].pass < u128::MAX,
        run(m, ops).classes[b].pass < u128::MAX,
        polls_charged(m, ops, a) + polls_charged(m, ops, b) == r * (wa + wb),
    ensures
        polls_charged(m, ops, a) == r * wa,
        polls_charged(m, ops, b) == r * wb,
        run(m, ops).classes[a].pass == run(m, ops).classes[b].pass,
{
    let va = wa as nat;
    let vb = wb as nat;
    assert(wa * MILLICORES_PER_CORE <= u64::MAX && wb * MILLICORES_PER_CORE <= u64::MAX)
        by (nonlinear_arith)
        requires
            wa <= u32::MAX,
            wb <= u32::MAX,
            MILLICORES_PER_CORE == 1000,
    ;
    let qa = lemma_even_charge(t as nat, va);
    let qb = lemma_even_charge(t as nat, vb);
    assert(0 * qa == 0 && 0 * qb == 0) by (nonlinear_arith);
    let s = lemma_run_counted(m, ops, t, a, b, va, vb, qa, qb);
    let x = polls_charged(m, ops, a);
    let y = polls_charged(m, ops, b);
    lemma_whole_rounds(x, y, va, vb, s, r);
    assert(x * qa == y * qb) by (nonlinear_arith)
        requires
            x == r * va,
            y == r * vb,
            va * qa == vb * qb,
    ;
}

/// As many polls as in `r` rounds are those of `r` rounds.
proof fn lemma_whole_rounds(x: nat, y: nat, wa: nat, wb: nat, s: nat, r: nat)
    requires
        wa > 0,
        wb > 0,
        in_round(x, y, wa, wb, s),
        x + y == r * (wa + wb),
    ensures
        x == r * wa,
        y == r * wb,
{
    let w = wa + wb;
    assert(s * w <= r * w <= (s + 1) * w) by (nonlinear_arith)
        requires
            x + y == r * w,
            s * wa <= x <= (s + 1) * wa,
            s * wb <= y <= (s + 1) * wb,
            w == wa + wb,
    ;
    assert(s <= r <= s + 1) by (nonlinear_arith)
        requires
            s * w <= r * w <= (s + 1) * w,
            w > 0,
    ;
    assert(r * w == r * wa + r * wb) by (nonlinear_arith)
        requires
            w == wa + wb,
    ;
}

} // verus!
