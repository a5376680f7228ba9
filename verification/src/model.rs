//! The mathematical model of a scheduler, and what each operation does to it.

use vstd::prelude::*;

use crate::class::{Entitlement, TaskClass, MILLICORES_PER_CORE};
use crate::control::{PollDecision, TaskControl, TaskPhase};
use crate::stats::{fresh_stats, ClassStats};

verus! {

/// Fixed-point scale of the passes: one nanosecond of execution of a class
/// entitled to one core, alone on the machine, advances its pass by this much.
pub const TIME_SCALE: u128 = 4_294_967_296;

/// A class as its scheduler sees it.
pub ghost struct ClassModel {
    /// Execution time that the class has been charged for, scaled down by its
    /// entitlement. The runnable class with the lowest pass is served first.
    pub pass: u128,
    /// CPU entitlement in milli-cores.
    pub millicores: u64,
    /// The tasks waiting for admission, the next one first.
    pub queue: Seq<u64>,
    /// Its counters.
    pub stats: ClassStats,
}

/// A scheduler. Classes are keyed by their identifier, tasks by theirs.
pub ghost struct SchedulerModel {
    /// How many tasks may hold a slot.
    pub max_concurrent_polls: usize,
    /// How many tasks hold a slot.
    pub active: usize,
    /// The highest pass at which a task has been admitted.
    pub virtual_time: u128,
    /// Whether new tasks are scheduled rather than run directly.
    pub enabled: bool,
    /// The identifier of the next task.
    pub next_task: u64,
    /// Tasks with a lower identifier are direct: they bypass the queues.
    pub direct_before: u64,
    /// The known classes.
    pub classes: Map<u32, ClassModel>,
    /// The tasks that have not finished.
    pub tasks: Map<u64, TaskControl>,
}

/// The higher of two passes.
pub open spec fn max_pass(a: u128, b: u128) -> u128 {
    if a < b {
        b
    } else {
        a
    }
}

/// The time from `start` to `now`, or zero when `now` is earlier.
pub open spec fn elapsed(start: u64, now: u64) -> u64 {
    if start < now {
        (now - start) as u64
    } else {
        0
    }
}

/// How far `nanos` of execution advance the pass of a class entitled to
/// `millicores`, when `active` polls shared the machine.
pub open spec fn charge(nanos: nat, millicores: nat, active: nat) -> nat {
    nanos * (TIME_SCALE as nat) * (MILLICORES_PER_CORE as nat) / (millicores * active)
}

/// A pass advanced by `amount`, and held at the highest pass there is.
pub open spec fn advance(pass: u128, amount: nat) -> u128 {
    if pass + amount <= u128::MAX {
        (pass + amount) as u128
    } else {
        u128::MAX
    }
}

/// How long a task that is admitted now has waited in its queue.
pub open spec fn admission_wait(task: TaskControl, now: u64) -> u64 {
    match task.queued_at {
        Some(start) => elapsed(start, now),
        None => elapsed(task.created, now),
    }
}

/// A queue without `id`.
pub open spec fn without(queue: Seq<u64>, id: u64) -> Seq<u64> {
    queue.filter(|x: u64| x != id)
}

/// The tasks of a table that satisfy `p`.
pub open spec fn matching(tasks: Map<u64, TaskControl>, p: spec_fn(TaskControl) -> bool) -> Set<
    u64,
> {
    tasks.dom().filter(|id: u64| p(tasks[id]))
}

/// Waiting for admission.
pub open spec fn is_waiting() -> spec_fn(TaskControl) -> bool {
    |t: TaskControl| t.phase is Queued
}

/// Holding a slot.
pub open spec fn is_holder() -> spec_fn(TaskControl) -> bool {
    |t: TaskControl| t.phase.holds_slot()
}

/// Belonging to class `c`.
pub open spec fn is_in(c: u32) -> spec_fn(TaskControl) -> bool {
    |t: TaskControl| t.class@ == c
}

/// Belonging to class `c` and holding a slot.
pub open spec fn is_holder_in(c: u32) -> spec_fn(TaskControl) -> bool {
    |t: TaskControl| t.class@ == c && t.phase.holds_slot()
}

/// Belonging to class `c` and not admitted so far.
pub open spec fn is_newcomer_in(c: u32) -> spec_fn(TaskControl) -> bool {
    |t: TaskControl| t.class@ == c && !t.admitted
}

impl ClassModel {
    /// A class that has done nothing yet.
    pub open spec fn fresh(entitlement: Entitlement, pass: u128) -> ClassModel {
        ClassModel {
            pass,
            millicores: entitlement.millicores,
            queue: Seq::empty(),
            stats: fresh_stats(entitlement.weight),
        }
    }

    /// The class with `id` at the end of its queue. A class that was not waiting
    /// for anything takes up the virtual time, so that it neither keeps credit
    /// from its idle time nor is served ahead of the classes that were busy.
    pub open spec fn push(self, id: u64, virtual_time: u128) -> ClassModel {
        ClassModel {
            pass: if self.queue.len() == 0 {
                max_pass(self.pass, virtual_time)
            } else {
                self.pass
            },
            queue: self.queue.push(id),
            stats: ClassStats { queued: (self.stats.queued + 1) as usize, ..self.stats },
            ..self
        }
    }

    /// The class without the first task of its queue.
    pub open spec fn pop(self) -> ClassModel {
        ClassModel {
            queue: self.queue.skip(1),
            stats: ClassStats { queued: (self.stats.queued - 1) as usize, ..self.stats },
            ..self
        }
    }

    /// The class without `id` in its queue.
    pub open spec fn withdraw(self, id: u64) -> ClassModel {
        ClassModel {
            queue: without(self.queue, id),
            stats: ClassStats { queued: (self.stats.queued - 1) as usize, ..self.stats },
            ..self
        }
    }

    /// The class with an empty queue.
    pub open spec fn drain(self) -> ClassModel {
        ClassModel {
            queue: Seq::empty(),
            stats: ClassStats { queued: 0, ..self.stats },
            ..self
        }
    }

    /// The class after the first admission of a task, which waited `wait` for it.
    pub open spec fn count_first_admission(self, wait: u64) -> ClassModel {
        ClassModel {
            stats: ClassStats {
                admitted: (self.stats.admitted + 1) as u64,
                total_admission_wait: (self.stats.total_admission_wait + wait) as u128,
                ..self.stats
            },
            ..self
        }
    }

    /// The class with one more poll admitted, that of `task`.
    pub open spec fn count_admission(self, task: TaskControl, now: u64) -> ClassModel {
        let class = ClassModel {
            stats: ClassStats { polls: (self.stats.polls + 1) as u64, ..self.stats },
            ..self
        };
        if task.admitted {
            class
        } else {
            class.count_first_admission(admission_wait(task, now))
        }
    }

    /// The class after a poll, one of `active`, that took `exec_time`.
    pub open spec fn count_exec(self, exec_time: Option<u64>, active: usize) -> ClassModel {
        match exec_time {
            Some(t) => ClassModel {
                pass: advance(
                    self.pass,
                    charge(t as nat, self.millicores as nat, active as nat),
                ),
                stats: ClassStats {
                    total_exec_time: (self.stats.total_exec_time + t) as u128,
                    ..self.stats
                },
                ..self
            },
            None => self,
        }
    }

    /// The class with one more future returned.
    pub open spec fn count_completed(self) -> ClassModel {
        ClassModel {
            stats: ClassStats { completed: (self.stats.completed + 1) as u64, ..self.stats },
            ..self
        }
    }

    /// The class with one more future dropped.
    pub open spec fn count_cancelled(self) -> ClassModel {
        ClassModel {
            stats: ClassStats { cancelled: (self.stats.cancelled + 1) as u64, ..self.stats },
            ..self
        }
    }

    /// The class with one more future wrapped.
    pub open spec fn count_task(self) -> ClassModel {
        ClassModel {
            stats: ClassStats { tasks: (self.stats.tasks + 1) as u64, ..self.stats },
            ..self
        }
    }

    /// The class with one more proxy wake. This counter wraps around.
    pub open spec fn count_wake(self) -> ClassModel {
        ClassModel {
            stats: ClassStats {
                wakes: if self.stats.wakes == u64::MAX {
                    0
                } else {
                    (self.stats.wakes + 1) as u64
                },
                ..self.stats
            },
            ..self
        }
    }

    /// The class with another entitlement, starting over at `pass`.
    pub open spec fn entitle(self, entitlement: Entitlement, pass: u128) -> ClassModel {
        ClassModel {
            pass,
            millicores: entitlement.millicores,
            stats: ClassStats { weight: entitlement.weight, ..self.stats },
            ..self
        }
    }

    /// What the class is entitled to.
    pub open spec fn entitlement(self) -> Entitlement {
        Entitlement { weight: self.stats.weight, millicores: self.millicores }
    }
}

impl SchedulerModel {
    /// The class of identifier `c`. One that is not known yet starts with weight
    /// one at the virtual time.
    pub open spec fn class_or_new(self, c: u32) -> ClassModel {
        if self.classes.contains_key(c) {
            self.classes[c]
        } else {
            ClassModel::fresh(Entitlement::weighted(1), self.virtual_time)
        }
    }

    /// The scheduler with `class` under the identifier `c`.
    pub open spec fn put_class(self, c: u32, class: ClassModel) -> SchedulerModel {
        SchedulerModel { classes: self.classes.insert(c, class), ..self }
    }

    /// The scheduler with `task` under the identifier `id`.
    pub open spec fn put_task(self, id: u64, task: TaskControl) -> SchedulerModel {
        SchedulerModel { tasks: self.tasks.insert(id, task), ..self }
    }

    /// The scheduler without the task of identifier `id`.
    pub open spec fn drop_task(self, id: u64) -> SchedulerModel {
        SchedulerModel { tasks: self.tasks.remove(id), ..self }
    }

    /// The phase of a task. Identifiers are not used twice, so one that is not
    /// in the table belongs to a task that has finished.
    pub open spec fn phase(self, id: u64) -> TaskPhase {
        if self.tasks.contains_key(id) {
            self.tasks[id].phase
        } else {
            TaskPhase::Finished
        }
    }

    /// The class that a live task belongs to.
    pub open spec fn class_of(self, id: u64) -> ClassModel {
        self.classes[self.tasks[id].class@]
    }

    /// Whether a task bypasses the queues.
    pub open spec fn is_direct(self, id: u64) -> bool {
        id < self.direct_before
    }

    /// The tasks that wait for admission.
    pub open spec fn waiting(self) -> Set<u64> {
        matching(self.tasks, is_waiting())
    }

    /// The tasks that hold a slot.
    pub open spec fn holders(self) -> Set<u64> {
        matching(self.tasks, is_holder())
    }

    /// The live tasks of a class.
    pub open spec fn live_in(self, c: u32) -> Set<u64> {
        matching(self.tasks, is_in(c))
    }

    /// The tasks of a class that hold a slot.
    pub open spec fn holders_in(self, c: u32) -> Set<u64> {
        matching(self.tasks, is_holder_in(c))
    }

    /// The live tasks of a class that have not been admitted so far.
    pub open spec fn newcomers_in(self, c: u32) -> Set<u64> {
        matching(self.tasks, is_newcomer_in(c))
    }

    /// Whether `c` is a class with tasks in its queue.
    pub open spec fn backlogged(self, c: u32) -> bool {
        self.classes.contains_key(c) && self.classes[c].queue.len() > 0
    }

    /// Whether no backlogged class comes before `c`: passes decide, and between
    /// equal passes the identifiers.
    pub open spec fn is_first(self, c: u32) -> bool {
        forall|d: u32| #[trigger]
            self.backlogged(d) ==> self.classes[c].pass < self.classes[d].pass || (
            self.classes[c].pass == self.classes[d].pass && c <= d)
    }

    /// The class that is served next.
    pub open spec fn next_class(self) -> Option<u32> {
        if exists|c: u32| #[trigger] self.backlogged(c) && self.is_first(c) {
            Some(choose|c: u32| #[trigger] self.backlogged(c) && self.is_first(c))
        } else {
            None
        }
    }

    /// The scheduler after the task `id`, now runnable, has entered the queue of
    /// its class.
    pub open spec fn enqueue(self, id: u64, now: u64) -> SchedulerModel {
        let task = self.tasks[id];
        self.put_task(
            id,
            TaskControl { phase: TaskPhase::Queued, queued_at: Some(now), ..task },
        ).put_class(task.class@, self.classes[task.class@].push(id, self.virtual_time))
    }

    /// The scheduler after the first task in the queue of `c` has left it: to be
    /// admitted, or to be idle again when there is no executor to wake for it.
    pub open spec fn serve(self, c: u32, now: u64) -> SchedulerModel {
        let class = self.classes[c];
        let id = class.queue[0];
        let task = self.tasks[id];
        if task.has_waker {
            SchedulerModel {
                active: (self.active + 1) as usize,
                virtual_time: max_pass(self.virtual_time, class.pass),
                ..self.put_task(
                    id,
                    TaskControl {
                        phase: TaskPhase::Admitted,
                        queued_at: None,
                        admitted: true,
                        ..task
                    },
                ).put_class(c, class.pop().count_admission(task, now))
            }
        } else {
            self.put_task(id, TaskControl { phase: TaskPhase::Idle, ..task }).put_class(
                c,
                class.pop(),
            )
        }
    }

    /// The tasks to wake when the first task in the queue of `c` is served.
    pub open spec fn served(self, c: u32) -> Seq<u64> {
        let id = self.classes[c].queue[0];
        if self.tasks[id].has_waker {
            seq![id]
        } else {
            Seq::empty()
        }
    }

    /// The scheduler after queued tasks have been served for as long as slots
    /// are free, and the tasks to wake, in the order of their admission.
    pub open spec fn dispatch(self, now: u64) -> (SchedulerModel, Seq<u64>)
        decreases self.waiting().len(),
        when self.consistent()
    {
        proof {
            if let Some(c) = self.next_class() {
                lemma_serve_shrinks(self, c, now);
            }
        }
        if self.active >= self.max_concurrent_polls {
            (self, Seq::empty())
        } else {
            match self.next_class() {
                Some(c) => {
                    let (rest, woken) = self.serve(c, now).dispatch(now);
                    (rest, self.served(c) + woken)
                },
                None => (self, Seq::empty()),
            }
        }
    }

    /// A scheduler that has done nothing yet.
    pub open spec fn initial(
        max_concurrent_polls: usize,
        entitlements: Map<u32, Entitlement>,
    ) -> SchedulerModel {
        SchedulerModel {
            max_concurrent_polls,
            active: 0,
            virtual_time: 0,
            enabled: true,
            next_task: 0,
            direct_before: 0,
            classes: entitlements.map_values(|e: Entitlement| ClassModel::fresh(e, 0)),
            tasks: Map::empty(),
        }
    }

    /// The scheduler with a task in another phase.
    pub open spec fn set_phase(self, id: u64, phase: TaskPhase) -> SchedulerModel {
        self.put_task(id, TaskControl { phase, ..self.tasks[id] })
    }

    /// The scheduler after an executor has left a waker for a task.
    pub open spec fn register(self, id: u64) -> SchedulerModel {
        self.put_task(id, TaskControl { has_waker: true, ..self.tasks[id] })
    }

    /// The task itself, when there is an executor to wake for it.
    pub open spec fn own_waker(self, id: u64) -> Seq<u64> {
        if self.tasks[id].has_waker {
            seq![id]
        } else {
            Seq::empty()
        }
    }

    /// The scheduler after a task has given its slot back.
    pub open spec fn free_slot(self, id: u64) -> SchedulerModel {
        SchedulerModel {
            active: (self.active - 1) as usize,
            ..self.set_phase(id, TaskPhase::Idle)
        }
    }

    /// The scheduler after a task's admitted poll has been charged to its class,
    /// and its slot given back. The polls under way, this one among them, shared
    /// the machine.
    pub open spec fn release(self, id: u64, exec_time: Option<u64>) -> SchedulerModel {
        self.free_slot(id).put_class(
            self.tasks[id].class@,
            self.class_of(id).count_exec(exec_time, self.active),
        )
    }

    /// The scheduler after a waiting task has left its queue.
    pub open spec fn withdraw(self, id: u64) -> SchedulerModel {
        self.set_phase(id, TaskPhase::Idle).put_class(
            self.tasks[id].class@,
            self.class_of(id).withdraw(id),
        )
    }

    /// The scheduler after an idle task's future has returned.
    pub open spec fn complete(self, id: u64) -> SchedulerModel {
        self.drop_task(id).put_class(
            self.tasks[id].class@,
            self.class_of(id).count_completed(),
        )
    }

    /// The scheduler after an idle task's future has been dropped.
    pub open spec fn abandon(self, id: u64) -> SchedulerModel {
        self.drop_task(id).put_class(
            self.tasks[id].class@,
            self.class_of(id).count_cancelled(),
        )
    }

    /// The scheduler after a future has been wrapped for a class. A disabled
    /// scheduler takes no notice of it.
    pub open spec fn schedule(self, class: TaskClass, now: u64) -> SchedulerModel {
        if self.enabled {
            SchedulerModel {
                next_task: (self.next_task + 1) as u64,
                ..self.put_task(self.next_task, TaskControl::fresh(class, now)).put_class(
                    class@,
                    self.class_or_new(class@).count_task(),
                )
            }
        } else {
            self
        }
    }

    /// What happens when an executor comes to poll a task: the scheduler after
    /// it, what the executor does, and the tasks to wake.
    pub open spec fn begin_poll(self, id: u64, now: u64) -> (
        SchedulerModel,
        PollDecision,
        Seq<u64>,
    ) {
        let m = self.register(id);
        match self.phase(id) {
            TaskPhase::Idle => if m.is_direct(id) {
                (m, PollDecision::Direct, Seq::empty())
            } else {
                let (rest, woken) = m.enqueue(id, now).dispatch(now);
                (rest, PollDecision::Wait, woken)
            },
            TaskPhase::Admitted => (
                m.set_phase(id, TaskPhase::Polling),
                PollDecision::Managed,
                Seq::empty(),
            ),
            TaskPhase::Finished => (self, PollDecision::Wait, Seq::empty()),
            _ => (m, PollDecision::Wait, Seq::empty()),
        }
    }

    /// What happens when the inner future of a task of class `c` wakes it: the
    /// scheduler after it, and the tasks to wake.
    pub open spec fn notify(self, id: u64, c: u32, now: u64) -> (SchedulerModel, Seq<u64>) {
        let m = self.put_class(c, self.classes[c].count_wake());
        match m.phase(id) {
            TaskPhase::Idle => if m.is_direct(id) {
                (m, m.own_waker(id))
            } else {
                m.enqueue(id, now).dispatch(now)
            },
            TaskPhase::Polling => (m.set_phase(id, TaskPhase::PollingNotified), Seq::empty()),
            _ => (m, Seq::empty()),
        }
    }

    /// What happens when a poll leaves its future pending: the scheduler after
    /// it, and the tasks to wake.
    pub open spec fn finish_pending(self, id: u64, exec_time: Option<u64>, now: u64) -> (
        SchedulerModel,
        Seq<u64>,
    ) {
        match self.phase(id) {
            TaskPhase::Polling => self.release(id, exec_time).dispatch(now),
            TaskPhase::PollingNotified => if self.is_direct(id) {
                let (rest, woken) = self.release(id, exec_time).dispatch(now);
                (rest, woken + self.own_waker(id))
            } else {
                self.release(id, exec_time).enqueue(id, now).dispatch(now)
            },
            _ => (self, Seq::empty()),
        }
    }

    /// What happens when a poll completes its future: the scheduler after it,
    /// and the tasks to wake.
    pub open spec fn finish_ready(self, id: u64, exec_time: Option<u64>, now: u64) -> (
        SchedulerModel,
        Seq<u64>,
    ) {
        if self.phase(id).holds_slot() {
            self.release(id, exec_time).complete(id).dispatch(now)
        } else {
            (self.complete(id), Seq::empty())
        }
    }

    /// What happens when a future is dropped: the scheduler after it, and the
    /// tasks to wake. A future that has returned leaves nothing behind. Nothing
    /// is charged for one that has not.
    pub open spec fn cancel(self, id: u64, now: u64) -> (SchedulerModel, Seq<u64>) {
        match self.phase(id) {
            TaskPhase::Finished => (self, Seq::empty()),
            TaskPhase::Idle => self.abandon(id).dispatch(now),
            TaskPhase::Queued => self.withdraw(id).abandon(id).dispatch(now),
            _ => self.free_slot(id).abandon(id).dispatch(now),
        }
    }

    /// Whether `pass` is the lowest pass among the classes.
    pub open spec fn is_lowest_pass(self, pass: u128) -> bool {
        &&& exists|c: u32| #[trigger]
            self.classes.contains_key(c) && self.classes[c].pass == pass
        &&& forall|c: u32| #[trigger]
            self.classes.contains_key(c) ==> pass <= self.classes[c].pass
    }

    /// The lowest pass among the classes; without any, the virtual time.
    pub open spec fn lowest_pass(self) -> u128 {
        if exists|pass: u128| self.is_lowest_pass(pass) {
            choose|pass: u128| self.is_lowest_pass(pass)
        } else {
            self.virtual_time
        }
    }

    /// The scheduler with another entitlement for a class, which starts over at
    /// the lowest pass.
    pub open spec fn entitle(self, c: u32, entitlement: Entitlement) -> SchedulerModel {
        self.put_class(c, self.class_or_new(c).entitle(entitlement, self.lowest_pass()))
    }

    /// The scheduler with other weights for the listed classes. Of two entries
    /// for one class the later counts.
    pub open spec fn entitle_all(self, weights: Seq<(TaskClass, u32)>) -> SchedulerModel
        decreases weights.len(),
    {
        if weights.len() == 0 {
            self
        } else {
            let (class, weight) = weights.last();
            self.entitle_all(weights.drop_last()).entitle(
                class@,
                Entitlement::weighted(weight),
            )
        }
    }

    /// The scheduler with another number of slots.
    pub open spec fn limit(self, max_concurrent_polls: usize) -> SchedulerModel {
        SchedulerModel { max_concurrent_polls, ..self }
    }

    /// The scheduler after it has been disabled: every live task is direct, and
    /// none waits for admission.
    pub open spec fn disable(self) -> SchedulerModel {
        SchedulerModel {
            enabled: false,
            direct_before: self.next_task,
            classes: self.classes.map_values(|class: ClassModel| class.drain()),
            tasks: self.tasks.map_values(
                |task: TaskControl|
                    if task.phase is Queued {
                        TaskControl { phase: TaskPhase::Idle, queued_at: None, ..task }
                    } else {
                        task
                    },
            ),
            ..self
        }
    }

    /// The scheduler after it has been enabled. Tasks that are direct stay so.
    pub open spec fn enable(self) -> SchedulerModel {
        SchedulerModel { enabled: true, ..self }
    }

    /// The counters of every class.
    pub open spec fn stats(self) -> Map<u32, ClassStats> {
        self.classes.map_values(|class: ClassModel| class.stats)
    }

    /// The scheduler after the first task in the queue of `c` has left it and is
    /// idle again.
    pub open spec fn send_away(self, c: u32) -> SchedulerModel {
        let id = self.classes[c].queue[0];
        self.put_task(
            id,
            TaskControl { phase: TaskPhase::Idle, queued_at: None, ..self.tasks[id] },
        ).put_class(c, self.classes[c].pop())
    }

    /// The tasks to wake when the scheduler is disabled: those that waited.
    pub open spec fn drained(self) -> Set<u64> {
        self.waiting().filter(|id: u64| self.tasks[id].has_waker)
    }

    /// The entitlement of a class in milli-cores. A class that is not known has
    /// that of weight one.
    pub open spec fn entitlement(self, c: u32) -> u64 {
        self.class_or_new(c).millicores
    }

    /// Whether a class can count one more task in its queue, and later its
    /// admission.
    pub open spec fn has_room(self, c: u32) -> bool {
        self.classes[c].stats.polls + self.classes[c].stats.queued < u64::MAX
    }

    /// Whether a class can count one more future as returned: while no task is
    /// direct, each was admitted before it returned.
    pub open spec fn can_complete(self, c: u32) -> bool {
        self.direct_before == 0 ==> self.classes[c].stats.completed + self.holders_in(c).len()
            < self.classes[c].stats.polls
    }

    /// The tasks of the table and the classes that they name.
    pub open spec fn tasks_ok(self) -> bool {
        &&& self.tasks.dom().finite()
        &&& self.direct_before <= self.next_task
        &&& !self.enabled ==> self.direct_before == self.next_task
        &&& forall|id: u64| #[trigger]
            self.tasks.contains_key(id) ==> {
                &&& id < self.next_task
                &&& !(self.tasks[id].phase is Finished)
                &&& self.classes.contains_key(self.tasks[id].class@)
                &&& self.tasks[id].phase is Queued ==> !self.is_direct(id) && self.class_of(
                    id,
                ).queue.contains(id)
            }
    }

    /// A queue holds tasks of its own class that wait for admission, each once.
    pub open spec fn queue_ok(self, c: u32) -> bool {
        let queue = self.classes[c].queue;
        &&& queue.no_duplicates()
        &&& forall|i: int|
            0 <= i < queue.len() ==> {
                &&& self.tasks.contains_key(#[trigger] queue[i])
                &&& self.tasks[queue[i]].phase is Queued
                &&& self.tasks[queue[i]].class@ == c
            }
    }

    /// The counters and the entitlement of a class fit each other, its tasks and
    /// its queue.
    pub open spec fn class_ok(self, c: u32) -> bool {
        let class = self.classes[c];
        let stats = class.stats;
        &&& class.entitlement().valid()
        &&& stats.queued == class.queue.len()
        &&& stats.tasks == stats.completed + stats.cancelled + self.live_in(c).len()
        &&& stats.tasks <= self.next_task
        &&& stats.admitted + self.newcomers_in(c).len() <= stats.tasks
        &&& stats.admitted <= stats.polls
        &&& stats.polls + stats.queued <= u64::MAX
        &&& stats.total_admission_wait <= stats.admitted * u64::MAX
        &&& stats.total_exec_time + self.holders_in(c).len() * u64::MAX <= stats.polls * u64::MAX
        &&& self.direct_before == 0 ==> stats.completed + self.holders_in(c).len() <= stats.polls
    }

    /// What holds of a scheduler at all times, also before free slots have been
    /// filled.
    pub open spec fn consistent(self) -> bool {
        &&& self.max_concurrent_polls > 0
        &&& self.active == self.holders().len()
        &&& self.tasks_ok()
        &&& self.classes.dom().finite()
        &&& forall|c: u32| #[trigger]
            self.classes.contains_key(c) ==> self.queue_ok(c) && self.class_ok(c)
    }

    /// No slot is free while a task waits for one.
    pub open spec fn work_conserving(self) -> bool {
        self.active < self.max_concurrent_polls ==> forall|c: u32| !self.backlogged(c)
    }

    /// What holds of a scheduler between its operations.
    pub open spec fn wf(self) -> bool {
        self.consistent() && self.work_conserving()
    }
}

/// Changing one task changes a set of matching tasks by that task alone.
pub proof fn lemma_matching_insert(
    tasks: Map<u64, TaskControl>,
    id: u64,
    task: TaskControl,
    p: spec_fn(TaskControl) -> bool,
)
    requires
        tasks.dom().finite(),
    ensures
        matching(tasks, p).finite(),
        matching(tasks.insert(id, task), p).finite(),
        matching(tasks.insert(id, task), p).len() == matching(tasks, p).len() + (if p(task) {
            1int
        } else {
            0
        }) - (if tasks.contains_key(id) && p(tasks[id]) {
            1int
        } else {
            0
        }),
        p(task) ==> matching(tasks.insert(id, task), p) == matching(tasks, p).insert(id),
        !p(task) ==> matching(tasks.insert(id, task), p) == matching(tasks, p).remove(id),
{
    let before = matching(tasks, p);
    let after = matching(tasks.insert(id, task), p);
    if p(task) {
        assert(after =~= before.insert(id));
    } else {
        assert(after =~= before.remove(id));
    }
}

/// Removing one task removes it from a set of matching tasks.
pub proof fn lemma_matching_remove(
    tasks: Map<u64, TaskControl>,
    id: u64,
    p: spec_fn(TaskControl) -> bool,
)
    requires
        tasks.dom().finite(),
    ensures
        matching(tasks, p).finite(),
        matching(tasks.remove(id), p).finite(),
        matching(tasks.remove(id), p) == matching(tasks, p).remove(id),
        matching(tasks.remove(id), p).len() == matching(tasks, p).len() - (if tasks.contains_key(id)
            && p(tasks[id]) {
            1int
        } else {
            0
        }),
{
    assert(matching(tasks.remove(id), p) =~= matching(tasks, p).remove(id));
}

/// The class that is served next is backlogged, and it is the only first one.
pub proof fn lemma_next_class(m: SchedulerModel, c: u32)
    ensures
        m.backlogged(c) && m.is_first(c) ==> m.next_class() == Some(c),
        m.next_class() == Some(c) ==> m.backlogged(c) && m.is_first(c),
{
    if m.backlogged(c) && m.is_first(c) {
        let d = choose|d: u32| #[trigger] m.backlogged(d) && m.is_first(d);
        assert(m.backlogged(d) && m.is_first(d));
    }
}

/// Serving a task takes it out of the waiting ones.
pub proof fn lemma_serve_shrinks(m: SchedulerModel, c: u32, now: u64)
    requires
        m.consistent(),
        m.next_class() == Some(c),
    ensures
        m.serve(c, now).waiting().len() < m.waiting().len(),
{
    lemma_next_class(m, c);
    let id = m.classes[c].queue[0];
    assert(m.queue_ok(c));
    let task = m.tasks[id];
    if task.has_waker {
        lemma_matching_insert(
            m.tasks,
            id,
            TaskControl { phase: TaskPhase::Admitted, queued_at: None, admitted: true, ..task },
            is_waiting(),
        );
    } else {
        lemma_matching_insert(
            m.tasks,
            id,
            TaskControl { phase: TaskPhase::Idle, ..task },
            is_waiting(),
        );
    }
}

} // verus!
