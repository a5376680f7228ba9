//! The scheduler's tables and queues.

use std::collections::{BTreeMap, HashMap, VecDeque};

use vstd::prelude::*;
use vstd::std_specs::btree::spec_btree_map_iter;
use vstd::std_specs::iter::IteratorSpec;

use crate::batch::WakeBatch;
use crate::class::{Entitlement, TaskClass, MILLICORES_PER_CORE};
use crate::control::{TaskControl, TaskPhase};
use crate::invariants::{
    lemma_count_wake, lemma_disable, lemma_disable_idle, lemma_dispatch, lemma_enable,
    lemma_enqueue, lemma_entitle, lemma_free_slot, lemma_go, lemma_initial, lemma_limit,
    lemma_release, lemma_schedule, lemma_send_away, lemma_serve, lemma_some_class_is_first,
    lemma_touch_task, lemma_withdraw, lemma_without,
};
use crate::model::{
    advance, charge, elapsed, lemma_next_class, lemma_serve_shrinks, without, ClassModel,
    SchedulerModel, TIME_SCALE,
};
use crate::stats::{ClassStats, SchedulerStats};

verus! {

/// A class: its entitlement, its pass and its queue.
///
/// Tasks that were cancelled while they waited stay in the queue until it is
/// next served or emptied.
#[derive(Debug)]
struct ClassState {
    pass: u128,
    millicores: u64,
    queue: VecDeque<u64>,
    stats: ClassStats,
}

/// The tables and queues behind a scheduler.
#[derive(Debug)]
pub struct ScheduleState {
    max_concurrent_polls: usize,
    active: usize,
    virtual_time: u128,
    enabled: bool,
    next_task: u64,
    direct_before: u64,
    classes: BTreeMap<u32, ClassState>,
    tasks: HashMap<u64, TaskControl>,
}

/// Whether a queue entry still stands for a waiting task.
spec fn is_live(tasks: Map<u64, TaskControl>, id: u64) -> bool {
    tasks.contains_key(id) && tasks[id].phase is Queued
}

/// The entries of a queue that still stand for waiting tasks.
spec fn live(queue: Seq<u64>, tasks: Map<u64, TaskControl>) -> Seq<u64> {
    queue.filter(|id: u64| is_live(tasks, id))
}

/// Whether a candidate, given by its class and pass, comes no later than another
/// class.
spec fn no_later(candidate: Option<(u32, u128)>, c: u32, pass: u128) -> bool {
    match candidate {
        Some((f, p)) => p < pass || (p == pass && f <= c),
        None => false,
    }
}

/// The waiting tasks of a queue depend on its own entries alone.
proof fn lemma_live_same(
    queue: Seq<u64>,
    before: Map<u64, TaskControl>,
    after: Map<u64, TaskControl>,
)
    requires
        forall|i: int|
            0 <= i < queue.len() ==> is_live(before, #[trigger] queue[i]) == is_live(
                after,
                queue[i],
            ),
    ensures
        live(queue, before) == live(queue, after),
    decreases queue.len(),
{
    reveal(Seq::filter);
    if queue.len() > 0 {
        assert(is_live(before, queue[queue.len() - 1]) == is_live(after, queue[queue.len() - 1]));
        assert forall|i: int| 0 <= i < queue.drop_last().len() implies is_live(
            before,
            #[trigger] queue.drop_last()[i],
        ) == is_live(after, queue.drop_last()[i]) by {
            assert(queue.drop_last()[i] == queue[i]);
        }
        lemma_live_same(queue.drop_last(), before, after);
    }
}

/// An entry at the end of a queue comes last among the waiting tasks.
proof fn lemma_live_push(queue: Seq<u64>, id: u64, tasks: Map<u64, TaskControl>)
    requires
        is_live(tasks, id),
    ensures
        live(queue.push(id), tasks) == live(queue, tasks).push(id),
{
    reveal(Seq::filter);
    assert(queue.push(id).drop_last() =~= queue);
}

/// The entry at the front of a queue comes first among the waiting tasks, if it
/// is one of them.
proof fn lemma_live_front(queue: Seq<u64>, tasks: Map<u64, TaskControl>)
    requires
        queue.len() > 0,
    ensures
        live(queue, tasks) == (if is_live(tasks, queue[0]) {
            seq![queue[0]]
        } else {
            Seq::empty()
        }) + live(queue.skip(1), tasks),
{
    reveal_with_fuel(Seq::filter, 2);
    let front = seq![queue[0]];
    assert(queue =~= front + queue.skip(1));
    Seq::filter_distributes_over_add(front, queue.skip(1), |id: u64| is_live(tasks, id));
    assert(front.drop_last() =~= Seq::empty());
    assert(live(front, tasks) =~= if is_live(tasks, queue[0]) {
        seq![queue[0]]
    } else {
        Seq::empty()
    });
}

/// The waiting tasks of a queue are its live entries.
proof fn lemma_live_contains(queue: Seq<u64>, tasks: Map<u64, TaskControl>)
    ensures
        forall|id: u64| #[trigger]
            live(queue, tasks).contains(id) <==> queue.contains(id) && is_live(tasks, id),
        live(queue, tasks).len() <= queue.len(),
    decreases queue.len(),
{
    reveal(Seq::filter);
    if queue.len() > 0 {
        lemma_live_front(queue, tasks);
        let rest = queue.skip(1);
        lemma_live_contains(rest, tasks);
        let all = live(queue, tasks);
        let tail = live(rest, tasks);
        assert forall|id: u64| #[trigger] all.contains(id) <==> queue.contains(id) && is_live(
            tasks,
            id,
        ) by {
            let offset = all.len() - tail.len();
            if all.contains(id) {
                let i = all.index_of(id);
                if i >= offset {
                    assert(tail[i - offset] == id);
                    assert(tail.contains(id));
                    let j = rest.index_of(id);
                    assert(queue[j + 1] == id);
                }
            }
            if queue.contains(id) && is_live(tasks, id) {
                let j = queue.index_of(id);
                if j > 0 {
                    assert(rest[j - 1] == id);
                    assert(tail.contains(id));
                    let i = tail.index_of(id);
                    assert(all[i + offset] == id);
                } else {
                    assert(all[0] == id);
                }
            }
        }
    }
}

/// When one task no longer waits, the other waiting tasks stay as they are.
proof fn lemma_live_without(
    queue: Seq<u64>,
    id: u64,
    before: Map<u64, TaskControl>,
    after: Map<u64, TaskControl>,
)
    requires
        !is_live(after, id),
        forall|x: u64| x != id ==> #[trigger] is_live(before, x) == is_live(after, x),
    ensures
        live(queue, after) == without(live(queue, before), id),
    decreases queue.len(),
{
    reveal(Seq::filter);
    if queue.len() > 0 {
        let rest = queue.drop_last();
        lemma_live_without(rest, id, before, after);
        let kept = live(rest, before);
        if is_live(before, queue.last()) {
            assert(live(queue, before) == kept.push(queue.last()));
            assert(live(queue, before).drop_last() =~= kept);
        }
    }
}

/// The time from `start` to `now`, or zero when `now` is earlier.
fn since(start: u64, now: u64) -> (span: u64)
    ensures
        span == elapsed(start, now),
{
    if start < now {
        now - start
    } else {
        0
    }
}

/// The pass of a class entitled to `millicores` after a poll, one of `active`,
/// that took `nanos`.
fn charged(pass: u128, nanos: u64, millicores: u64, active: usize) -> (advanced: u128)
    requires
        millicores > 0,
        active > 0,
    ensures
        advanced == advance(pass, charge(nanos as nat, millicores as nat, active as nat)),
{
    proof {
        lemma_charge_fits(nanos, millicores, active);
    }
    let work = nanos as u128 * TIME_SCALE * MILLICORES_PER_CORE as u128;
    let share = millicores as u128 * active as u128;
    pass.saturating_add(work / share)
}

/// The products behind a charge fit in 128 bits.
proof fn lemma_charge_fits(nanos: u64, millicores: u64, active: usize)
    requires
        millicores > 0,
        active > 0,
    ensures
        nanos * TIME_SCALE * MILLICORES_PER_CORE <= u128::MAX,
        nanos * TIME_SCALE <= u128::MAX,
        0 < millicores * active <= u128::MAX,
{
    assert(0 < millicores * active <= u64::MAX * usize::MAX) by (nonlinear_arith)
        requires
            0 < millicores <= u64::MAX,
            0 < active <= usize::MAX,
    ;
    assert(u64::MAX * usize::MAX <= u64::MAX * u64::MAX) by (nonlinear_arith)
        requires
            usize::MAX <= u64::MAX,
    ;
}

/// Takes the first waiting task out of a queue, along with the leftovers before
/// it.
fn pop_live(queue: &mut VecDeque<u64>, tasks: &HashMap<u64, TaskControl>) -> (popped: Option<u64>)
    ensures
        exists|n: int| 0 <= n <= old(queue)@.len() && final(queue)@ == old(queue)@.skip(n),
        match popped {
            Some(id) => {
                &&& live(old(queue)@, tasks@).len() > 0
                &&& id == live(old(queue)@, tasks@)[0]
                &&& live(final(queue)@, tasks@) == live(old(queue)@, tasks@).skip(1)
            },
            None => live(old(queue)@, tasks@).len() == 0,
        },
{
    let ghost mut n: int = 0;
    assert(queue@ =~= queue@.skip(0));
    loop
        invariant
            0 <= n <= old(queue)@.len(),
            queue@ == old(queue)@.skip(n),
            live(queue@, tasks@) == live(old(queue)@, tasks@),
        decreases queue@.len(),
    {
        let ghost before = queue@;
        match queue.pop_front() {
            Some(id) => {
                proof {
                    lemma_live_front(before, tasks@);
                    assert(before.subrange(1, before.len() as int) =~= before.skip(1));
                    n = n + 1;
                    assert(queue@ =~= old(queue)@.skip(n));
                }
                let waits = match tasks.get(&id) {
                    Some(task) => task.phase == TaskPhase::Queued,
                    None => false,
                };
                if waits {
                    assert(live(queue@, tasks@) =~= live(before, tasks@).skip(1));
                    return Some(id);
                }
                assert(live(queue@, tasks@) =~= live(before, tasks@));
            },
            None => {
                proof {
                    reveal(Seq::filter);
                }
                return None;
            },
        }
    }
}

impl ClassState {
    spec fn model(self, tasks: Map<u64, TaskControl>) -> ClassModel {
        ClassModel {
            pass: self.pass,
            millicores: self.millicores,
            queue: live(self.queue@, tasks),
            stats: self.stats,
        }
    }

    /// Makes a class that has done nothing yet.
    fn new(entitlement: Entitlement, pass: u128) -> (class: ClassState)
        ensures
            class.queue@.len() == 0,
            forall|tasks: Map<u64, TaskControl>| #[trigger]
                class.model(tasks) == ClassModel::fresh(entitlement, pass),
    {
        let class = ClassState {
            pass,
            millicores: entitlement.millicores,
            queue: VecDeque::new(),
            stats: ClassStats::fresh(entitlement.weight),
        };
        proof {
            reveal(Seq::filter);
            assert forall|tasks: Map<u64, TaskControl>| #[trigger]
                class.model(tasks) == ClassModel::fresh(entitlement, pass) by {
                assert(live(class.queue@, tasks) =~= Seq::empty());
            }
        }
        class
    }
}

impl View for ScheduleState {
    type V = SchedulerModel;

    closed spec fn view(&self) -> SchedulerModel {
        SchedulerModel {
            max_concurrent_polls: self.max_concurrent_polls,
            active: self.active,
            virtual_time: self.virtual_time,
            enabled: self.enabled,
            next_task: self.next_task,
            direct_before: self.direct_before,
            classes: self.classes@.map_values(|class: ClassState| class.model(self.tasks@)),
            tasks: self.tasks@,
        }
    }
}

impl ScheduleState {
    /// What a queue holds besides the waiting tasks: leftovers of tasks that are
    /// gone, and none of those once nothing waits.
    spec fn queue_valid(self, c: u32) -> bool {
        let queue = self.classes@[c].queue@;
        &&& queue.no_duplicates()
        &&& forall|i: int|
            0 <= i < queue.len() ==> {
                &&& #[trigger] queue[i] < self.next_task
                &&& self.tasks@.contains_key(queue[i]) ==> self.tasks@[queue[i]].phase is Queued
                    && self.tasks@[queue[i]].class@ == c
            }
        &&& live(queue, self.tasks@).len() == 0 ==> queue.len() == 0
    }

    /// Whether the queues hold nothing but waiting tasks and their leftovers.
    pub closed spec fn valid(self) -> bool {
        forall|c: u32| #[trigger] self.classes@.contains_key(c) ==> self.queue_valid(c)
    }

    /// What holds of the tables at all times, also before free slots have been
    /// filled.
    pub open spec fn inv(self) -> bool {
        self.valid() && self@.consistent()
    }

    /// Looks up a live task.
    pub fn task(&self, id: u64) -> (task: Option<TaskControl>)
        ensures
            task matches Some(t) ==> self@.tasks.contains_key(id) && t == self@.tasks[id],
            task is None ==> !self@.tasks.contains_key(id),
    {
        match self.tasks.get(&id) {
            Some(task) => Some(*task),
            None => None,
        }
    }

    /// Changes a live task that neither enters nor leaves a queue.
    pub fn touch(&mut self, id: u64, task: TaskControl)
        requires
            old(self).inv(),
            old(self)@.tasks.contains_key(id),
            task.class@ == old(self)@.tasks[id].class@,
            task.phase.holds_slot() == old(self)@.tasks[id].phase.holds_slot(),
            task.phase is Queued == old(self)@.tasks[id].phase is Queued,
            !(task.phase is Finished),
            task.admitted == old(self)@.tasks[id].admitted,
        ensures
            final(self).inv(),
            final(self)@ == old(self)@.put_task(id, task),
            old(self)@.work_conserving() ==> final(self)@.work_conserving(),
    {
        self.tasks.insert(id, task);
        proof {
            assert forall|c: u32| #[trigger] self.classes@.contains_key(c) implies
                self.queue_valid(c) && self@.classes[c] == old(self)@.classes[c] by {
                assert(old(self).queue_valid(c));
                lemma_live_same(self.classes@[c].queue@, old(self).tasks@, self.tasks@);
            }
            assert(self@.classes =~= old(self)@.classes);
            lemma_touch_task(old(self)@, id, task);
        }
    }

    /// Puts an idle task that has become runnable at the end of the queue of its
    /// class. A task that waits already, holds a slot, is direct or has finished
    /// is left alone.
    pub fn enqueue(&mut self, id: u64, now: u64)
        requires
            old(self).inv(),
            old(self)@.phase(id) is Idle && !old(self)@.is_direct(id) ==> old(self)@.has_room(
                old(self)@.tasks[id].class@,
            ),
        ensures
            final(self).inv(),
            final(self)@ == (if old(self)@.phase(id) is Idle && !old(self)@.is_direct(id) {
                old(self)@.enqueue(id, now)
            } else {
                old(self)@
            }),
            old(self)@.phase(id) is Idle && !old(self)@.is_direct(id) ==> old(self)@.class_of(
                id,
            ).queue.len() < usize::MAX,
    {
        if self.is_direct(id) {
            return;
        }
        if let Some(found) = self.task(id) {
            let mut task = found;
            if task.phase != TaskPhase::Idle {
                return;
            }
            let c = task.class.id();
            task.phase = TaskPhase::Queued;
            task.queued_at = Some(now);
            proof {
                assert(old(self).queue_valid(c));
                assert(self@.queue_ok(c) && self@.class_ok(c));
                lemma_live_contains(self.classes@[c].queue@, self.tasks@);
            }
            if let Some(removed) = self.classes.remove(&c) {
                let mut class = removed;
                if class.stats.queued == 0 && class.pass < self.virtual_time {
                    class.pass = self.virtual_time;
                }
                class.queue.push_back(id);
                assert(class.queue.len() == class.queue@.len());
                class.stats.queued = class.stats.queued + 1;
                self.classes.insert(c, class);
                self.tasks.insert(id, task);
                proof {
                    let queue = old(self).classes@[c].queue@;
                    assert(!queue.contains(id));
                    assert(class.queue@ == queue.push(id));
                    assert forall|d: u32| #[trigger]
                        self.classes@.contains_key(d) implies self.queue_valid(d)
                        && self@.classes[d] == old(self)@.enqueue(id, now).classes[d] by {
                        assert(old(self).queue_valid(d));
                        if d == c {
                            lemma_live_same(queue, old(self).tasks@, self.tasks@);
                            lemma_live_push(queue, id, self.tasks@);
                        } else {
                            lemma_live_same(
                                self.classes@[d].queue@,
                                old(self).tasks@,
                                self.tasks@,
                            );
                        }
                    }
                    assert(self@.classes =~= old(self)@.enqueue(id, now).classes);
                    lemma_enqueue(old(self)@, id, now);
                }
            }
        }
    }

    /// Changing a task that no queue holds changes no queue.
    proof fn lemma_unqueued(self, before: ScheduleState, id: u64, task: TaskControl)
        requires
            before.valid(),
            self.tasks@ == before.tasks@.insert(id, task),
            self == (ScheduleState { tasks: self.tasks, ..before }),
            is_live(before.tasks@, id),
            forall|c: u32| #[trigger]
                before@.classes.contains_key(c) ==> !before@.classes[c].queue.contains(id),
        ensures
            self.valid(),
            self@ == before@.put_task(id, task),
    {
        assert forall|c: u32| #[trigger] self.classes@.contains_key(c) implies self.queue_valid(c)
            && self@.classes[c] == before@.classes[c] by {
            assert(before.queue_valid(c));
            let queue = before.classes@[c].queue@;
            assert(before@.classes.contains_key(c));
            lemma_live_contains(queue, before.tasks@);
            assert forall|i: int| 0 <= i < queue.len() implies #[trigger] queue[i] != id by {
                assert(queue.contains(queue[i]));
            }
            lemma_live_same(queue, before.tasks@, self.tasks@);
        }
        assert(self@.classes =~= before@.classes);
    }

    /// The class to serve next.
    fn first_class(&self) -> (first: Option<u32>)
        requires
            self@.classes.dom().finite(),
            forall|c: u32| #[trigger]
                self@.classes.contains_key(c) ==> self@.classes[c].stats.queued
                    == self@.classes[c].queue.len(),
        ensures
            first == self@.next_class(),
    {
        let mut first: Option<(u32, u128)> = None;
        for (c, class) in it: self.classes.iter()
            invariant
                it.seq() == spec_btree_map_iter(&self.classes).remaining(),
                forall|d: u32| #[trigger]
                    self@.classes.contains_key(d) ==> self@.classes[d].stats.queued
                        == self@.classes[d].queue.len(),
                first matches Some((f, p)) ==> self@.backlogged(f) && p == self@.classes[f].pass,
                forall|i: int|
                    0 <= i < it.index() && self@.backlogged(*(#[trigger] it.seq()[i]).0)
                        ==> no_later(
                        first,
                        *it.seq()[i].0,
                        self@.classes[*it.seq()[i].0].pass,
                    ),
        {
            proof {
                let pair = it.seq()[it.index()];
                assert(*pair.0 == *c && *pair.1 == *class);
                assert(self.classes@.contains_key(*c) && self.classes@[*c] == *class);
                assert(self@.classes.contains_key(*c));
                assert(self@.classes[*c] == class.model(self.tasks@));
            }
            if class.stats.queued > 0 {
                let better = match first {
                    Some((f, p)) => class.pass < p || (class.pass == p && *c < f),
                    None => true,
                };
                if better {
                    first = Some((*c, class.pass));
                }
            }
        }
        proof {
            let pairs = spec_btree_map_iter(&self.classes).remaining();
            assert forall|d: u32| #[trigger] self@.backlogged(d) implies no_later(
                first,
                d,
                self@.classes[d].pass,
            ) by {
                assert(self.classes@.contains_key(d));
                assert(pairs.contains((&d, &self.classes@[d])));
                let i = pairs.index_of((&d, &self.classes@[d]));
                assert(*pairs[i].0 == d);
            }
            if let Some((f, p)) = first {
                lemma_next_class(self@, f);
            }
        }
        match first {
            Some((f, p)) => Some(f),
            None => None,
        }
    }

    /// Takes the next task to serve out of its queue, along with what is left
    /// there of tasks that are gone.
    fn next_queued(&mut self) -> (next: Option<(u32, u64)>)
        requires
            old(self).inv(),
        ensures
            final(self).valid(),
            match next {
                Some((c, id)) => {
                    &&& old(self)@.next_class() == Some(c)
                    &&& id == old(self)@.classes[c].queue[0]
                    &&& final(self)@ == old(self)@.put_class(c, old(self)@.classes[c].pop())
                },
                None => old(self)@.next_class() is None && final(self)@ == old(self)@,
            },
    {
        let c = match self.first_class() {
            Some(c) => c,
            None => {
                return None;
            },
        };
        proof {
            lemma_next_class(self@, c);
            assert(self.queue_valid(c));
            assert(self@.class_ok(c));
        }
        if let Some(removed) = self.classes.remove(&c) {
            let mut class = removed;
            let ghost queue = class.queue@;
            let popped = pop_live(&mut class.queue, &self.tasks);
            if let Some(id) = popped {
                class.stats.queued = class.stats.queued - 1;
                if class.stats.queued == 0 {
                    class.queue.clear();
                    assert(live(class.queue@, self.tasks@) =~= live(queue, self.tasks@).skip(
                        1,
                    )) by {
                        reveal(Seq::filter);
                    }
                }
                self.classes.insert(c, class);
                proof {
                    assert forall|d: u32| #[trigger]
                        self.classes@.contains_key(d) implies self.queue_valid(d)
                        && self@.classes[d] == old(self)@.put_class(
                        c,
                        old(self)@.classes[c].pop(),
                    ).classes[d] by {
                        assert(old(self).queue_valid(d));
                    }
                    assert(self@.classes =~= old(self)@.put_class(
                        c,
                        old(self)@.classes[c].pop(),
                    ).classes);
                }
                return Some((c, id));
            }
        }
        assert(false);
        None
    }

    /// Admits queued tasks while slots are free, and adds the admitted ones to
    /// the tasks to wake. A task without an executor to wake becomes idle.
    pub fn dispatch(&mut self, now: u64, wakes: &mut WakeBatch)
        requires
            old(self).inv(),
        ensures
            final(self).inv(),
            final(self)@.work_conserving(),
            final(self)@ == old(self)@.dispatch(now).0,
            final(wakes)@ == old(wakes)@ + old(self)@.dispatch(now).1,
    {
        let ghost goal = self@.dispatch(now);
        let ghost woken = wakes@;
        proof {
            lemma_dispatch(self@, now);
        }
        while self.active < self.max_concurrent_polls
            invariant_except_break
                self.inv(),
                self@.dispatch(now).0 == goal.0,
                wakes@ + self@.dispatch(now).1 == woken + goal.1,
            ensures
                self.inv(),
                self@ == goal.0,
                wakes@ == woken + goal.1,
            decreases self@.waiting().len(),
        {
            let ghost m = self@;
            let ghost before = *self;
            let (c, id) = match self.next_queued() {
                Some(next) => next,
                None => {
                    assert(wakes@ + m.dispatch(now).1 =~= wakes@);
                    break;
                },
            };
            proof {
                lemma_next_class(m, c);
                lemma_serve(m, c, now);
                lemma_serve_shrinks(m, c, now);
                assert(m.queue_ok(c) && m.class_ok(c));
                assert forall|d: u32| #[trigger]
                    self@.classes.contains_key(d) implies !self@.classes[d].queue.contains(id) by {
                    assert(m.queue_ok(d));
                    if self@.classes[d].queue.contains(id) {
                        let i = self@.classes[d].queue.index_of(id);
                        if d == c {
                            assert(m.classes[c].queue[i + 1] == id);
                        }
                    }
                }
            }
            if let Some(found) = self.task(id) {
                let mut task = found;
                let ghost queued = *self;
                if !task.has_waker {
                    task.phase = TaskPhase::Idle;
                    self.tasks.insert(id, task);
                    proof {
                        self.lemma_unqueued(queued, id, task);
                        assert(self@ == m.serve(c, now));
                        assert(wakes@ + m.dispatch(now).1 =~= wakes@ + self@.dispatch(now).1);
                    }
                    continue;
                }
                let wait = match task.queued_at {
                    Some(start) => since(start, now),
                    None => since(task.created, now),
                };
                let first = !task.admitted;
                task.phase = TaskPhase::Admitted;
                task.queued_at = None;
                task.admitted = true;
                self.tasks.insert(id, task);
                proof {
                    self.lemma_unqueued(queued, id, task);
                    assert(self@.classes[c] == m.classes[c].pop());
                    assert(self@.classes.contains_key(c));
                    assert(self.classes@.contains_key(c));
                    assert(self.classes@[c].model(self.tasks@) == self@.classes[c]);
                }
                let ghost admitted = *self;
                if let Some(removed) = self.classes.remove(&c) {
                    let mut class = removed;
                    if self.virtual_time < class.pass {
                        self.virtual_time = class.pass;
                    }
                    class.stats.polls = class.stats.polls + 1;
                    if first {
                        class.stats.admitted = class.stats.admitted + 1;
                        class.stats.total_admission_wait = class.stats.total_admission_wait
                            + wait as u128;
                    }
                    self.classes.insert(c, class);
                }
                self.active = self.active + 1;
                let ghost batch = wakes@;
                wakes.push(id);
                proof {
                    assert forall|d: u32| #[trigger] self.classes@.contains_key(d) implies
                        self.queue_valid(d) && self@.classes[d] == m.serve(c, now).classes[d] by {
                        assert(admitted.queue_valid(d));
                        assert(admitted@.classes[d] == queued@.classes[d]);
                    }
                    assert(self@.classes =~= m.serve(c, now).classes);
                    assert(self@ == m.serve(c, now));
                    assert(self.valid());
                    assert(wakes@ + self@.dispatch(now).1 =~= batch + m.dispatch(now).1);
                }
            }
        }
    }

    /// Changing a task that does not wait, before and after, changes no queue.
    proof fn lemma_not_waiting(self, before: ScheduleState, id: u64)
        requires
            before.valid(),
            before.tasks@.contains_key(id),
            !is_live(before.tasks@, id),
            !is_live(self.tasks@, id),
            forall|x: u64|
                x != id ==> self.tasks@.contains_key(x) == before.tasks@.contains_key(x)
                    && self.tasks@[x] == #[trigger] before.tasks@[x],
            self == (ScheduleState { tasks: self.tasks, ..before }),
        ensures
            self.valid(),
            self@.classes == before@.classes,
    {
        assert forall|c: u32| #[trigger] self.classes@.contains_key(c) implies self.queue_valid(c)
            && self@.classes[c] == before@.classes[c] by {
            assert(before.queue_valid(c));
            let queue = before.classes@[c].queue@;
            assert forall|i: int| 0 <= i < queue.len() implies #[trigger] queue[i] != id by {
                if queue[i] == id {
                    assert(before.tasks@.contains_key(queue[i]));
                }
            }
            assert forall|i: int| 0 <= i < queue.len() implies is_live(
                before.tasks@,
                #[trigger] queue[i],
            ) == is_live(self.tasks@, queue[i]) by {
                assert(self.tasks@[queue[i]] == before.tasks@[queue[i]]);
            }
            lemma_live_same(queue, before.tasks@, self.tasks@);
        }
        assert(self@.classes =~= before@.classes);
    }

    /// Takes back the slot of a task whose poll was not completed.
    pub fn free_slot(&mut self, id: u64)
        requires
            old(self).inv(),
            old(self)@.phase(id).holds_slot(),
        ensures
            final(self).inv(),
            final(self)@ == old(self)@.free_slot(id),
    {
        proof {
            lemma_free_slot(self@, id);
        }
        if let Some(found) = self.task(id) {
            let mut task = found;
            task.phase = TaskPhase::Idle;
            self.tasks.insert(id, task);
            proof {
                self.lemma_not_waiting(*old(self), id);
            }
            self.active = self.active - 1;
            proof {
                assert forall|c: u32| #[trigger] self.classes@.contains_key(c) implies
                    self.queue_valid(c) by {}
                assert(self@ == old(self)@.free_slot(id));
            }
        }
    }

    /// Charges an admitted poll to the class of its task, and takes back the slot.
    pub fn release(&mut self, id: u64, exec_time: Option<u64>)
        requires
            old(self).inv(),
            old(self)@.phase(id).holds_slot(),
        ensures
            final(self).inv(),
            final(self)@ == old(self)@.release(id, exec_time),
            final(self)@.can_complete(old(self)@.tasks[id].class@),
    {
        proof {
            lemma_release(self@, id, exec_time);
        }
        let active = self.active;
        self.free_slot(id);
        if let Some(task) = self.task(id) {
            let c = task.class.id();
            let ghost freed = *self;
            proof {
                assert(self@.classes.contains_key(c));
                assert(self@.class_ok(c));
                assert(self.classes@[c].model(self.tasks@) == self@.classes[c]);
            }
            if let Some(t) = exec_time {
                if let Some(removed) = self.classes.remove(&c) {
                    let mut class = removed;
                    class.pass = charged(class.pass, t, class.millicores, active);
                    class.stats.total_exec_time = class.stats.total_exec_time + t as u128;
                    self.classes.insert(c, class);
                    proof {
                        self.lemma_put_class(freed, c, class);
                    }
                }
            }
            proof {
                assert(self@.classes =~= old(self)@.release(id, exec_time).classes);
            }
        }
    }

    /// Forgets an idle task whose future has returned.
    pub fn complete(&mut self, id: u64)
        requires
            old(self).inv(),
            old(self)@.phase(id) is Idle,
            old(self)@.can_complete(old(self)@.tasks[id].class@),
        ensures
            final(self).inv(),
            final(self)@ == old(self)@.complete(id),
            old(self)@.work_conserving() ==> final(self)@.work_conserving(),
    {
        proof {
            lemma_go(self@, id);
        }
        if let Some(task) = self.tasks.remove(&id) {
            let c = task.class.id();
            let ghost forgotten = *self;
            proof {
                assert(old(self)@.tasks.contains_key(id));
                self.lemma_not_waiting(*old(self), id);
                assert(self@.classes.contains_key(c));
                assert(self.classes@[c].model(self.tasks@) == self@.classes[c]);
            }
            if let Some(removed) = self.classes.remove(&c) {
                let mut class = removed;
                class.stats.completed = class.stats.completed + 1;
                self.classes.insert(c, class);
                proof {
                    self.lemma_put_class(forgotten, c, class);
                }
            }
        }
    }

    /// Forgets an idle task whose future has been dropped.
    pub fn abandon(&mut self, id: u64)
        requires
            old(self).inv(),
            old(self)@.phase(id) is Idle,
        ensures
            final(self).inv(),
            final(self)@ == old(self)@.abandon(id),
    {
        proof {
            lemma_go(self@, id);
        }
        if let Some(task) = self.tasks.remove(&id) {
            let c = task.class.id();
            let ghost forgotten = *self;
            proof {
                assert(old(self)@.tasks.contains_key(id));
                self.lemma_not_waiting(*old(self), id);
                assert(self@.classes.contains_key(c));
                assert(self.classes@[c].model(self.tasks@) == self@.classes[c]);
            }
            if let Some(removed) = self.classes.remove(&c) {
                let mut class = removed;
                class.stats.cancelled = class.stats.cancelled + 1;
                self.classes.insert(c, class);
                proof {
                    self.lemma_put_class(forgotten, c, class);
                }
            }
        }
    }

    /// Forgets a waiting task whose future has been dropped. What it leaves in
    /// the queue is passed over later, or cleared now when nothing else waits.
    pub fn abandon_queued(&mut self, id: u64)
        requires
            old(self).inv(),
            old(self)@.phase(id) is Queued,
        ensures
            final(self).inv(),
            final(self)@ == old(self)@.withdraw(id).abandon(id),
    {
        proof {
            lemma_withdraw(self@, id);
            lemma_go(self@.withdraw(id), id);
        }
        if let Some(task) = self.tasks.remove(&id) {
            let c = task.class.id();
            proof {
                assert(old(self)@.tasks.contains_key(id));
                assert(old(self)@.classes.contains_key(c));
                assert(old(self).classes@[c].model(old(self).tasks@) == old(self)@.classes[c]);
                assert(old(self)@.class_ok(c) && old(self)@.queue_ok(c));
            }
            if let Some(removed) = self.classes.remove(&c) {
                let mut class = removed;
                let ghost queue = class.queue@;
                class.stats.cancelled = class.stats.cancelled + 1;
                class.stats.queued = class.stats.queued - 1;
                if class.stats.queued == 0 {
                    class.queue.clear();
                }
                self.classes.insert(c, class);
                proof {
                    let goal = old(self)@.withdraw(id).abandon(id);
                    assert(self.tasks@ =~= goal.tasks);
                    assert forall|d: u32| #[trigger] self.classes@.contains_key(d) implies
                        self.queue_valid(d) && self@.classes[d] == goal.classes[d] by {
                        assert(old(self).queue_valid(d));
                        if d == c {
                            lemma_live_without(queue, id, old(self).tasks@, self.tasks@);
                            lemma_without(old(self)@.classes[c].queue, id);
                            if class.stats.queued == 0 {
                                reveal(Seq::filter);
                                assert(live(class.queue@, self.tasks@) =~= live(
                                    queue,
                                    self.tasks@,
                                ));
                            }
                        } else {
                            lemma_live_same(
                                self.classes@[d].queue@,
                                old(self).tasks@,
                                self.tasks@,
                            );
                        }
                    }
                    assert(self@.classes =~= goal.classes);
                }
            }
        }
    }

    /// Counts a proxy wake.
    pub fn count_wake(&mut self, c: u32)
        requires
            old(self).inv(),
            old(self)@.classes.contains_key(c),
        ensures
            final(self).inv(),
            final(self)@ == old(self)@.put_class(c, old(self)@.classes[c].count_wake()),
            old(self)@.work_conserving() ==> final(self)@.work_conserving(),
    {
        proof {
            lemma_count_wake(self@, c);
        }
        if let Some(removed) = self.classes.remove(&c) {
            let mut class = removed;
            class.stats.wakes = class.stats.wakes.wrapping_add(1);
            self.classes.insert(c, class);
            proof {
                self.lemma_put_class(*old(self), c, class);
            }
        }
    }

    /// Takes a class out of the table, for the caller to change and put back. One
    /// that is not known yet starts with weight one at the virtual time.
    fn take_class(&mut self, c: u32) -> (class: ClassState)
        requires
            old(self).valid(),
        ensures
            *final(self) == (ScheduleState { classes: final(self).classes, ..*old(self) }),
            final(self).classes@ == old(self).classes@.remove(c),
            class.model(old(self).tasks@) == old(self)@.class_or_new(c),
            old(self).classes@.contains_key(c) ==> class == old(self).classes@[c],
            !old(self).classes@.contains_key(c) ==> class.queue@.len() == 0,
    {
        match self.classes.remove(&c) {
            Some(class) => class,
            None => {
                let class = ClassState::new(Entitlement::from_weight(1), self.virtual_time);
                assert(old(self).classes@.remove(c) =~= old(self).classes@);
                class
            },
        }
    }

    /// Adding or changing a class that keeps its queue keeps the queues valid.
    proof fn lemma_put_class(self, before: ScheduleState, c: u32, class: ClassState)
        requires
            before.valid(),
            before.classes@.contains_key(c) ==> class.queue@ == before.classes@[c].queue@,
            !before.classes@.contains_key(c) ==> class.queue@.len() == 0,
            self.classes@ =~= before.classes@.insert(c, class),
            self == (ScheduleState { classes: self.classes, ..before }),
        ensures
            self.valid(),
            self@ == before@.put_class(c, class.model(before.tasks@)),
    {
        assert forall|d: u32| #[trigger] self.classes@.contains_key(d) implies self.queue_valid(
            d,
        ) by {
            if before.classes@.contains_key(d) {
                assert(before.queue_valid(d));
            }
        }
        assert(self@.classes =~= before@.put_class(c, class.model(before.tasks@)).classes);
    }

    /// Adds a task to a class, unless the scheduler is disabled, and returns its
    /// identifier.
    pub fn schedule(&mut self, class: TaskClass, now: u64) -> (id: Option<u64>)
        requires
            old(self).inv(),
            old(self)@.enabled ==> old(self)@.next_task < u64::MAX,
        ensures
            final(self).inv(),
            final(self)@ == old(self)@.schedule(class, now),
            old(self)@.work_conserving() ==> final(self)@.work_conserving(),
            id == (if old(self)@.enabled {
                Some(old(self)@.next_task)
            } else {
                None
            }),
    {
        proof {
            lemma_schedule(self@, class, now);
        }
        if !self.enabled {
            return None;
        }
        let c = class.id();
        let id = self.next_task;
        let mut state = self.take_class(c);
        state.stats.tasks = state.stats.tasks + 1;
        self.classes.insert(c, state);
        let ghost counted = *self;
        proof {
            self.lemma_put_class(*old(self), c, state);
        }
        self.tasks.insert(id, TaskControl::new(class, now));
        self.next_task = id + 1;
        proof {
            assert forall|d: u32| #[trigger] self.classes@.contains_key(d) implies
                self.queue_valid(d) && self@.classes[d] == counted@.classes[d] by {
                assert(counted.queue_valid(d));
                lemma_live_same(self.classes@[d].queue@, counted.tasks@, self.tasks@);
            }
            assert(self@.classes =~= old(self)@.schedule(class, now).classes);
        }
        Some(id)
    }

    /// The lowest pass among the classes; without any, the virtual time.
    fn lowest_pass(&self) -> (lowest: u128)
        ensures
            lowest == self@.lowest_pass(),
    {
        let mut lowest: Option<u128> = None;
        for (c, class) in it: self.classes.iter()
            invariant
                it.seq() == spec_btree_map_iter(&self.classes).remaining(),
                lowest is None ==> it.index() == 0,
                lowest matches Some(p) ==> exists|d: u32| #[trigger]
                    self@.classes.contains_key(d) && self@.classes[d].pass == p,
                forall|i: int|
                    0 <= i < it.index() ==> lowest is Some && lowest->0
                        <= (#[trigger] it.seq()[i]).1.pass,
        {
            proof {
                let pair = it.seq()[it.index()];
                assert(self.classes@.contains_key(*pair.0) && self.classes@[*pair.0] == *pair.1);
                assert(self@.classes.contains_key(*c) && self@.classes[*c].pass == class.pass);
            }
            let lower = match lowest {
                Some(p) => class.pass < p,
                None => true,
            };
            if lower {
                lowest = Some(class.pass);
            }
        }
        proof {
            let pairs = spec_btree_map_iter(&self.classes).remaining();
            assert forall|d: u32| #[trigger] self@.classes.contains_key(d) implies lowest is Some
                && lowest->0 <= self@.classes[d].pass by {
                assert(self.classes@.contains_key(d));
                assert(pairs.contains((&d, &self.classes@[d])));
                let i = pairs.index_of((&d, &self.classes@[d]));
                assert(pairs[i].1.pass == self@.classes[d].pass);
            }
            if let Some(p) = lowest {
                assert(self@.is_lowest_pass(p));
                let q = choose|q: u128| self@.is_lowest_pass(q);
                assert(p == q);
            } else {
                assert(!exists|q: u128| self@.is_lowest_pass(q));
            }
        }
        match lowest {
            Some(p) => p,
            None => self.virtual_time,
        }
    }

    /// Gives a class another entitlement, and lets it start over at the lowest
    /// pass: what it was charged under the old entitlement no longer counts.
    pub fn entitle(&mut self, c: u32, entitlement: Entitlement)
        requires
            old(self).inv(),
            entitlement.valid(),
        ensures
            final(self).inv(),
            final(self)@ == old(self)@.entitle(c, entitlement),
    {
        proof {
            lemma_entitle(self@, c, entitlement);
        }
        let lowest = self.lowest_pass();
        let mut class = self.take_class(c);
        class.pass = lowest;
        class.millicores = entitlement.millicores;
        class.stats.weight = entitlement.weight;
        self.classes.insert(c, class);
        proof {
            self.lemma_put_class(*old(self), c, class);
        }
    }

    /// Changes the number of slots.
    pub fn limit(&mut self, max_concurrent_polls: usize)
        requires
            old(self).inv(),
            max_concurrent_polls > 0,
        ensures
            final(self).inv(),
            final(self)@ == old(self)@.limit(max_concurrent_polls),
    {
        proof {
            lemma_limit(self@, max_concurrent_polls);
        }
        self.max_concurrent_polls = max_concurrent_polls;
        proof {
            assert forall|c: u32| #[trigger] self.classes@.contains_key(c) implies
                self.queue_valid(c) by {
                assert(old(self).queue_valid(c));
            }
            assert(self@.classes =~= old(self)@.classes);
        }
    }

    /// Makes the tables of a scheduler that has done nothing yet.
    pub fn new(max_concurrent_polls: usize, entitlements: &BTreeMap<u32, Entitlement>) -> (state:
        ScheduleState)
        requires
            max_concurrent_polls > 0,
            forall|c: u32| #[trigger]
                entitlements@.contains_key(c) ==> entitlements@[c].valid(),
        ensures
            state.inv(),
            state@ == SchedulerModel::initial(max_concurrent_polls, entitlements@),
            state@.work_conserving(),
    {
        let mut classes: BTreeMap<u32, ClassState> = BTreeMap::new();
        for (c, entitlement) in it: entitlements.iter()
            invariant
                it.seq() == spec_btree_map_iter(entitlements).remaining(),
                forall|d: u32| #[trigger]
                    classes@.contains_key(d) ==> entitlements@.contains_key(d) && {
                        &&& classes@[d].queue@.len() == 0
                        &&& forall|tasks: Map<u64, TaskControl>| #[trigger]
                            classes@[d].model(tasks) == ClassModel::fresh(entitlements@[d], 0)
                    },
                forall|i: int|
                    0 <= i < it.index() ==> classes@.contains_key(*(#[trigger] it.seq()[i]).0),
        {
            proof {
                let pair = it.seq()[it.index()];
                assert(entitlements@.contains_key(*pair.0) && entitlements@[*pair.0] == *pair.1);
            }
            classes.insert(*c, ClassState::new(*entitlement, 0));
        }
        let state = ScheduleState {
            max_concurrent_polls,
            active: 0,
            virtual_time: 0,
            enabled: true,
            next_task: 0,
            direct_before: 0,
            classes,
            tasks: HashMap::new(),
        };
        proof {
            let pairs = spec_btree_map_iter(entitlements).remaining();
            assert forall|d: u32| #[trigger]
                entitlements@.contains_key(d) implies classes@.contains_key(d) by {
                assert(pairs.contains((&d, &entitlements@[d])));
                let i = pairs.index_of((&d, &entitlements@[d]));
                assert(*pairs[i].0 == d);
            }
            lemma_initial(max_concurrent_polls, entitlements@);
            assert(state@.classes =~= SchedulerModel::initial(
                max_concurrent_polls,
                entitlements@,
            ).classes);
        }
        state
    }

    /// Takes a snapshot of the counters.
    pub fn stats(&self) -> (stats: SchedulerStats)
        ensures
            stats.max_concurrent_polls == self@.max_concurrent_polls,
            stats.active_polls == self@.active,
            stats.classes@ == self@.stats(),
    {
        let mut classes: BTreeMap<u32, ClassStats> = BTreeMap::new();
        for (c, class) in it: self.classes.iter()
            invariant
                it.seq() == spec_btree_map_iter(&self.classes).remaining(),
                forall|d: u32| #[trigger]
                    classes@.contains_key(d) ==> self.classes@.contains_key(d) && classes@[d]
                        == self.classes@[d].stats,
                forall|i: int|
                    0 <= i < it.index() ==> classes@.contains_key(*(#[trigger] it.seq()[i]).0),
        {
            proof {
                let pair = it.seq()[it.index()];
                assert(self.classes@.contains_key(*pair.0) && self.classes@[*pair.0] == *pair.1);
            }
            classes.insert(*c, class.stats);
        }
        proof {
            let pairs = spec_btree_map_iter(&self.classes).remaining();
            assert forall|d: u32| #[trigger]
                self.classes@.contains_key(d) implies classes@.contains_key(d) by {
                assert(pairs.contains((&d, &self.classes@[d])));
                let i = pairs.index_of((&d, &self.classes@[d]));
                assert(*pairs[i].0 == d);
            }
            assert(classes@ =~= self@.stats());
        }
        SchedulerStats {
            max_concurrent_polls: self.max_concurrent_polls,
            active_polls: self.active,
            classes,
        }
    }

    /// The entitlement of a class in milli-cores. A class that is not known has
    /// that of weight one.
    pub fn millicores(&self, c: u32) -> (millicores: u64)
        ensures
            millicores == self@.entitlement(c),
    {
        match self.classes.get(&c) {
            Some(class) => class.millicores,
            None => MILLICORES_PER_CORE as u64,
        }
    }

    /// Whether another task can be added: there is an identifier left, or none is
    /// needed.
    pub fn can_schedule(&self) -> (can: bool)
        ensures
            can == (self@.enabled ==> self@.next_task < u64::MAX),
    {
        !self.enabled || self.next_task < u64::MAX
    }

    /// Whether a class can count one more admission. An unknown class can.
    pub fn has_room(&self, c: u32) -> (room: bool)
        ensures
            self@.classes.contains_key(c) ==> room == self@.has_room(c),
            !self@.classes.contains_key(c) ==> room,
    {
        match self.classes.get(&c) {
            Some(class) => class.stats.polls as u128 + (class.stats.queued as u128)
                < u64::MAX as u128,
            None => true,
        }
    }

    /// Whether new tasks are scheduled.
    pub fn is_enabled(&self) -> (enabled: bool)
        ensures
            enabled == self@.enabled,
    {
        self.enabled
    }

    /// Whether a task bypasses the queues.
    pub fn is_direct(&self, id: u64) -> (direct: bool)
        ensures
            direct == self@.is_direct(id),
    {
        id < self.direct_before
    }

    /// Schedules new tasks from now on.
    pub fn enable(&mut self)
        requires
            old(self).inv(),
        ensures
            final(self).inv(),
            final(self)@ == old(self)@.enable(),
            old(self)@.work_conserving() ==> final(self)@.work_conserving(),
    {
        proof {
            lemma_enable(self@);
        }
        self.enabled = true;
        proof {
            assert forall|c: u32| #[trigger] self.classes@.contains_key(c) implies
                self.queue_valid(c) by {
                assert(old(self).queue_valid(c));
            }
            assert(self@.classes =~= old(self)@.classes);
        }
    }

    /// Lets every live task run directly from now on, and sends those away that
    /// wait for admission. Returns them, to be woken.
    pub fn disable(&mut self) -> (wakes: WakeBatch)
        requires
            old(self).inv(),
        ensures
            final(self).inv(),
            final(self)@ == old(self)@.disable(),
            final(self)@.work_conserving(),
            wakes@.no_duplicates(),
            wakes@.to_set() == old(self)@.drained(),
    {
        let mut wakes = WakeBatch::new();
        assert(wakes@.to_set() =~= Set::empty());
        loop
            invariant_except_break
                self.inv(),
                self@.disable() == old(self)@.disable(),
                wakes@.no_duplicates(),
                forall|id: u64| #[trigger]
                    old(self)@.drained().contains(id) <==> wakes@.contains(id)
                        || self@.drained().contains(id),
                forall|id: u64| #[trigger]
                    wakes@.contains(id) ==> !self@.drained().contains(id),
            ensures
                self.inv(),
                self@.disable() == old(self)@.disable(),
                wakes@.no_duplicates(),
                wakes@.to_set() == old(self)@.drained(),
                forall|c: u32| !self@.backlogged(c),
            decreases self@.waiting().len(),
        {
            let ghost m = self@;
            let (c, id) = match self.next_queued() {
                Some(next) => next,
                None => {
                    proof {
                        lemma_some_class_is_first(m);
                        lemma_disable_idle(m);
                        assert(wakes@.to_set() =~= old(self)@.drained());
                    }
                    break;
                },
            };
            proof {
                lemma_next_class(m, c);
                lemma_send_away(m, c);
                assert(m.queue_ok(c));
                assert forall|d: u32| #[trigger]
                    self@.classes.contains_key(d) implies !self@.classes[d].queue.contains(id) by {
                    assert(m.queue_ok(d));
                    if self@.classes[d].queue.contains(id) {
                        let i = self@.classes[d].queue.index_of(id);
                        if d == c {
                            assert(m.classes[c].queue[i + 1] == id);
                        }
                    }
                }
            }
            if let Some(found) = self.task(id) {
                let mut task = found;
                let ghost queued = *self;
                task.phase = TaskPhase::Idle;
                task.queued_at = None;
                self.tasks.insert(id, task);
                proof {
                    self.lemma_unqueued(queued, id, task);
                    assert(self@ == m.send_away(c));
                }
                if task.has_waker {
                    let ghost before = wakes@;
                    assert(m.drained().contains(id));
                    assert(!before.contains(id));
                    wakes.push(id);
                    assert forall|x: u64| #[trigger] wakes@.contains(x) <==> before.contains(x) || x
                        == id by {
                        if before.contains(x) {
                            assert(wakes@[before.index_of(x)] == x);
                        }
                        assert(wakes@[before.len() as int] == id);
                        if wakes@.contains(x) {
                            let i = wakes@.index_of(x);
                            if i < before.len() {
                                assert(before[i] == x);
                            }
                        }
                    }
                }
            }
        }
        let ghost emptied = *self;
        proof {
            lemma_disable_idle(self@);
            lemma_disable(self@);
        }
        self.enabled = false;
        self.direct_before = self.next_task;
        proof {
            assert forall|c: u32| #[trigger] self.classes@.contains_key(c) implies
                self.queue_valid(c) by {
                assert(emptied.queue_valid(c));
            }
            assert(self@.classes =~= emptied@.classes);
        }
        wakes
    }
}

} // verus!
