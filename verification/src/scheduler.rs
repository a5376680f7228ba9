//! The scheduler, its handles and its operations.

use std::collections::BTreeMap;

use vstd::prelude::*;

use crate::batch::WakeBatch;
use crate::builder::SchedulerBuilder;
use crate::class::{Entitlement, SoftCpuLimit, TaskClass};
use crate::control::{BeginPoll, FinishPending, Notify, PollDecision, TaskPhase};
use crate::laws::{
    lemma_dispatch_moves_on, lemma_entitle_all_moves_on, lemma_moves_on_twice, moves_on,
    Operation,
};
use crate::model::SchedulerModel;
use crate::spawner::Spawner;
use crate::state::ScheduleState;
use crate::stats::SchedulerStats;

verus! {

/// A weighted, work-conserving scheduler that decides which polls an executor
/// makes.
///
/// The scheduler does not run anything itself. Its owner tells it when a future
/// is wrapped, polled, woken or dropped, and wakes the tasks that it hands back.
/// Every operation is one step: an owner that shares the scheduler keeps it
/// behind a lock, and makes the wakes after the lock is released.
///
/// Each call is one of the operations that the laws speak of, and says so.
///
/// Clock readings are in nanoseconds since some fixed moment.
#[derive(Debug)]
pub struct Scheduler {
    state: ScheduleState,
}

/// A wrapped future, as its scheduler knows it. It has one owner, who polls it
/// and in the end drops it.
#[derive(Debug)]
pub struct Scheduled {
    task: Option<u64>,
    class: TaskClass,
}

/// The waker that is handed to a wrapped future in place of the executor's own.
/// It may outlive the future.
#[derive(Clone, Copy, Debug)]
pub struct ProxyWaker {
    task: u64,
    class: TaskClass,
}

/// The outcome of an executor's coming to poll a task.
#[derive(Debug)]
pub struct PollStart {
    /// What the executor does.
    pub decision: PollDecision,
    /// The tasks to wake.
    pub wakes: WakeBatch,
}

/// What a handle names: a task, if the scheduler keeps a record of it, and its
/// class.
pub ghost struct HandleModel {
    /// The identifier of the task; none for a future that was wrapped while the
    /// scheduler was disabled, and of which it knows nothing.
    pub task: Option<u64>,
    /// The identifier of its class.
    pub class: u32,
}

impl View for Scheduled {
    type V = HandleModel;

    closed spec fn view(&self) -> HandleModel {
        HandleModel { task: self.task, class: self.class@ }
    }
}

impl View for ProxyWaker {
    type V = HandleModel;

    closed spec fn view(&self) -> HandleModel {
        HandleModel { task: Some(self.task), class: self.class@ }
    }
}

impl View for Scheduler {
    type V = SchedulerModel;

    closed spec fn view(&self) -> SchedulerModel {
        self.state@
    }
}

impl SchedulerModel {
    /// Whether a handle was made by this scheduler: its class is known, and its
    /// task, while it lives, belongs to that class.
    pub open spec fn issued(self, handle: HandleModel) -> bool {
        handle.task matches Some(id) ==> {
            &&& id < self.next_task
            &&& self.classes.contains_key(handle.class)
            &&& self.tasks.contains_key(id) ==> self.tasks[id].class@ == handle.class
        }
    }

    /// Whether every handle that was made by this scheduler is also one of `next`.
    pub open spec fn keeps_handles(self, next: SchedulerModel) -> bool {
        forall|handle: HandleModel| self.issued(handle) ==> #[trigger] next.issued(handle)
    }

    /// Whether the class of a task that is in `phase`, and so about to queue, can
    /// count one more admission. It can until it has counted as many as fit.
    pub open spec fn can_queue(self, handle: HandleModel, phase: TaskPhase) -> bool {
        handle.task matches Some(id) ==> self.phase(id) == phase && !self.is_direct(id)
            ==> self.has_room(handle.class)
    }

    /// Whether a poll of the task may be under way.
    pub open spec fn may_finish(self, handle: HandleModel) -> bool {
        handle.task matches Some(id) ==> self.tasks.contains_key(id) && self.tasks[id].may_finish(
            self.is_direct(id),
        )
    }
}

impl Scheduled {
    /// Returns the class that the future was wrapped for.
    pub fn class(&self) -> (class: TaskClass)
        ensures
            class@ == self@.class,
    {
        self.class
    }

    /// Returns the identifier under which the scheduler hands the task back to
    /// be woken, if it keeps a record of it.
    pub fn task(&self) -> (task: Option<u64>)
        ensures
            task == self@.task,
    {
        self.task
    }

    /// Returns the waker to hand to the wrapped future in an admitted poll.
    pub fn proxy_waker(&self) -> (proxy: Option<ProxyWaker>)
        ensures
            proxy is Some == self@.task is Some,
            proxy matches Some(p) ==> p@ == self@,
    {
        match self.task {
            Some(task) => Some(ProxyWaker { task, class: self.class }),
            None => None,
        }
    }
}

impl Scheduler {
    /// What holds of every scheduler.
    pub closed spec fn wf(self) -> bool {
        self.state.valid() && self@.wf()
    }

    /// Every scheduler is consistent, and leaves no slot free while a task waits
    /// for one.
    pub proof fn lemma_wf(self)
        requires
            self.wf(),
        ensures
            self@.wf(),
    {
    }

    /// Returns a new scheduler builder.
    pub fn builder(available_parallelism: Option<usize>) -> (builder: SchedulerBuilder)
        requires
            available_parallelism matches Some(n) ==> n > 0,
        ensures
            builder@.wf(),
            builder@.max_concurrent_polls == (match available_parallelism {
                Some(n) => n,
                None => 1,
            }),
            builder@.entitlements == map![0u32 => Entitlement::weighted(1)],
    {
        SchedulerBuilder::new(available_parallelism)
    }

    /// Makes a scheduler with the given slots and classes.
    pub(crate) fn from_entitlements(
        max_concurrent_polls: usize,
        entitlements: &BTreeMap<u32, Entitlement>,
    ) -> (scheduler: Scheduler)
        requires
            max_concurrent_polls > 0,
            forall|c: u32| #[trigger]
                entitlements@.contains_key(c) ==> entitlements@[c].valid(),
        ensures
            scheduler.wf(),
            scheduler@ == SchedulerModel::initial(max_concurrent_polls, entitlements@),
    {
        Scheduler { state: ScheduleState::new(max_concurrent_polls, entitlements) }
    }

    /// Fills the free slots and returns the tasks to wake.
    fn dispatch(&mut self, now: u64) -> (wakes: WakeBatch)
        requires
            old(self).state.inv(),
        ensures
            final(self).wf(),
            moves_on(old(self)@, final(self)@),
            final(self)@ == old(self)@.dispatch(now).0,
            wakes@ == old(self)@.dispatch(now).1,
    {
        let mut wakes = WakeBatch::new();
        proof {
            lemma_dispatch_moves_on(self@, now);
        }
        self.state.dispatch(now, &mut wakes);
        assert(wakes@ =~= old(self)@.dispatch(now).1);
        wakes
    }

    /// Whether another future can be wrapped. One can until the identifiers run
    /// out.
    pub fn can_schedule(&self) -> (can: bool)
        ensures
            can == (self@.enabled ==> self@.next_task < u64::MAX),
    {
        self.state.can_schedule()
    }

    /// Whether a task that is in `phase`, and so about to queue, can do so.
    fn can_queue(&self, id: u64, class: TaskClass, phase: TaskPhase) -> (can: bool)
        requires
            self@.classes.contains_key(class@),
            !(phase is Finished),
        ensures
            can == self@.can_queue(HandleModel { task: Some(id), class: class@ }, phase),
    {
        let queues = match self.state.task(id) {
            Some(task) => task.phase == phase && !self.state.is_direct(id),
            None => false,
        };
        !queues || self.state.has_room(class.id())
    }

    /// Whether a poll of the task can begin. It can until its class has counted as
    /// many admissions as fit, and after that where the task does not queue.
    pub fn can_begin_poll(&self, task: &Scheduled) -> (can: bool)
        requires
            self@.issued(task@),
        ensures
            can == self@.can_queue(task@, TaskPhase::Idle),
    {
        match task.task {
            Some(id) => self.can_queue(id, task.class, TaskPhase::Idle),
            None => true,
        }
    }

    /// Whether the task can be woken, in the way of [`can_begin_poll`].
    ///
    /// [`can_begin_poll`]: Scheduler::can_begin_poll
    pub fn can_notify(&self, proxy: ProxyWaker) -> (can: bool)
        requires
            self@.issued(proxy@),
        ensures
            can == self@.can_queue(proxy@, TaskPhase::Idle),
    {
        self.can_queue(proxy.task, proxy.class, TaskPhase::Idle)
    }

    /// Whether a poll can leave the task pending, in the way of
    /// [`can_begin_poll`].
    ///
    /// [`can_begin_poll`]: Scheduler::can_begin_poll
    pub fn can_finish_pending(&self, task: &Scheduled) -> (can: bool)
        requires
            self@.issued(task@),
        ensures
            can == self@.can_queue(task@, TaskPhase::PollingNotified),
    {
        match task.task {
            Some(id) => self.can_queue(id, task.class, TaskPhase::PollingNotified),
            None => true,
        }
    }

    /// Wraps a future in the default class.
    pub fn schedule(&mut self, now: u64) -> (task: Scheduled)
        requires
            old(self).wf(),
            old(self)@.enabled ==> old(self)@.next_task < u64::MAX,
        ensures
            final(self).wf(),
            old(self)@.keeps_handles(final(self)@),
            old(self)@.allows(Operation::Schedule { class: TaskClass::of(0), now }),
            final(self)@ == old(self)@.schedule(TaskClass::of(0), now),
            task@.class == 0,
            task@.task == (if old(self)@.enabled {
                Some(old(self)@.next_task)
            } else {
                None
            }),
            final(self)@.issued(task@),
    {
        self.schedule_in(TaskClass::default(), now)
    }

    /// Wraps a future in `class`. While the scheduler is disabled it takes no
    /// notice of the future, which runs directly from beginning to end.
    pub fn schedule_in(&mut self, class: TaskClass, now: u64) -> (task: Scheduled)
        requires
            old(self).wf(),
            old(self)@.enabled ==> old(self)@.next_task < u64::MAX,
        ensures
            final(self).wf(),
            old(self)@.keeps_handles(final(self)@),
            old(self)@.allows(Operation::Schedule { class, now }),
            final(self)@ == old(self)@.schedule(class, now),
            task@.class == class@,
            task@.task == (if old(self)@.enabled {
                Some(old(self)@.next_task)
            } else {
                None
            }),
            final(self)@.issued(task@),
    {
        let task = self.state.schedule(class, now);
        Scheduled { task, class }
    }

    /// Creates a handle for wrapping futures in one class.
    pub fn spawner(&self, class: TaskClass) -> (spawner: Spawner)
        ensures
            spawner@ == class@,
    {
        Spawner::new(class)
    }

    /// Returns a point-in-time scheduler snapshot.
    pub fn stats(&self) -> (stats: SchedulerStats)
        ensures
            stats.max_concurrent_polls == self@.max_concurrent_polls,
            stats.active_polls == self@.active,
            stats.classes@ == self@.stats(),
    {
        self.state.stats()
    }

    /// Changes the weight of a class. The class starts over at the lowest pass
    /// among all classes, so that what it was charged under the old weight does
    /// not skew the new allocation. Queued tasks are dispatched at once.
    pub fn set_weight(&mut self, class: TaskClass, weight: u32, now: u64) -> (wakes: WakeBatch)
        requires
            old(self).wf(),
            weight > 0,
        ensures
            final(self).wf(),
            old(self)@.keeps_handles(final(self)@),
            old(self)@.allows(
                Operation::Entitle { c: class@, entitlement: Entitlement::weighted(weight), now },
            ),
            (final(self)@, wakes@) == old(self)@.entitle(
                class@,
                Entitlement::weighted(weight),
            ).dispatch(now),
    {
        self.state.entitle(class.id(), Entitlement::from_weight(weight));
        let ghost entitled = self@;
        let wakes = self.dispatch(now);
        proof {
            lemma_moves_on_twice(old(self)@, entitled, self@);
        }
        wakes
    }

    /// Changes the weights of the listed classes in one step. Classes that are
    /// not listed stay as they are.
    pub fn set_weights(&mut self, weights: &Vec<(TaskClass, u32)>, now: u64) -> (wakes: WakeBatch)
        requires
            old(self).wf(),
            forall|i: int| 0 <= i < weights@.len() ==> (#[trigger] weights@[i]).1 > 0,
        ensures
            final(self).wf(),
            old(self)@.keeps_handles(final(self)@),
            old(self)@.allows(Operation::EntitleAll { weights: weights@, now }),
            (final(self)@, wakes@) == old(self)@.entitle_all(weights@).dispatch(now),
    {
        let mut i: usize = 0;
        assert(weights@.take(0) =~= Seq::empty());
        while i < weights.len()
            invariant
                i <= weights@.len(),
                self.state.inv(),
                self@ == old(self)@.entitle_all(weights@.take(i as int)),
                forall|j: int| 0 <= j < weights@.len() ==> (#[trigger] weights@[j]).1 > 0,
            decreases weights@.len() - i,
        {
            let (class, weight) = weights[i];
            assert(weights@[i as int].1 > 0);
            proof {
                let done = weights@.take(i + 1);
                assert(done.drop_last() =~= weights@.take(i as int));
                assert(done.last() == weights@[i as int]);
            }
            self.state.entitle(class.id(), Entitlement::from_weight(weight));
            i = i + 1;
        }
        assert(weights@.take(i as int) =~= weights@);
        let ghost entitled = self@;
        let wakes = self.dispatch(now);
        proof {
            lemma_entitle_all_moves_on(old(self)@, weights@);
            lemma_moves_on_twice(old(self)@, entitled, self@);
        }
        wakes
    }

    /// Changes the soft CPU limit of a class, in the way of [`set_weight`].
    ///
    /// [`set_weight`]: Scheduler::set_weight
    pub fn set_soft_cpu_limit(&mut self, class: TaskClass, limit: SoftCpuLimit, now: u64) -> (wakes:
        WakeBatch)
        requires
            old(self).wf(),
        ensures
            final(self).wf(),
            old(self)@.keeps_handles(final(self)@),
            old(self)@.allows(
                Operation::Entitle { c: class@, entitlement: Entitlement::limited(limit), now },
            ),
            (final(self)@, wakes@) == old(self)@.entitle(
                class@,
                Entitlement::limited(limit),
            ).dispatch(now),
    {
        self.state.entitle(class.id(), Entitlement::from_limit(limit));
        let ghost entitled = self@;
        let wakes = self.dispatch(now);
        proof {
            lemma_moves_on_twice(old(self)@, entitled, self@);
        }
        wakes
    }

    /// Returns the entitlement of a class in milli-cores, whichever way it was
    /// configured. A class that is not known has that of weight one.
    pub fn soft_cpu_limit_millicores(&self, class: TaskClass) -> (millicores: u64)
        ensures
            millicores == self@.entitlement(class@),
    {
        self.state.millicores(class.id())
    }

    /// Changes the maximum number of concurrently admitted polls. Raising it
    /// admits queued tasks at once; lowering it stops further admissions until
    /// active polls drain below the new limit.
    pub fn set_max_concurrent_polls(&mut self, limit: usize, now: u64) -> (wakes: WakeBatch)
        requires
            old(self).wf(),
            limit > 0,
        ensures
            final(self).wf(),
            old(self)@.keeps_handles(final(self)@),
            old(self)@.allows(Operation::Limit { max_concurrent_polls: limit, now }),
            (final(self)@, wakes@) == old(self)@.limit(limit).dispatch(now),
    {
        self.state.limit(limit);
        let ghost limited = self@;
        let wakes = self.dispatch(now);
        proof {
            lemma_moves_on_twice(old(self)@, limited, self@);
        }
        wakes
    }

    /// Returns whether new futures are scheduled.
    pub fn is_enabled(&self) -> (enabled: bool)
        ensures
            enabled == self@.enabled,
    {
        self.state.is_enabled()
    }

    /// Enables or disables the scheduler.
    ///
    /// Disabling lets all live tasks run directly from then on, also after the
    /// scheduler has been enabled again, and returns those that waited for
    /// admission, to be woken. Tasks that hold a slot keep it until their poll
    /// ends.
    pub fn set_enabled(&mut self, enabled: bool) -> (wakes: WakeBatch)
        requires
            old(self).wf(),
        ensures
            final(self).wf(),
            old(self)@.keeps_handles(final(self)@),
            enabled ==> final(self)@ == old(self)@.enable() && wakes@.len() == 0,
            !enabled ==> {
                &&& final(self)@ == old(self)@.disable()
                &&& wakes@.no_duplicates()
                &&& wakes@.to_set() == old(self)@.drained()
            },
    {
        if enabled {
            self.state.enable();
            WakeBatch::new()
        } else {
            self.state.disable()
        }
    }

    /// An executor has come to poll a task, and has left its waker.
    ///
    /// The owner keeps the waker under the task's identifier, and wakes it
    /// whenever the task is handed back to be woken.
    pub fn begin_poll(&mut self, task: &Scheduled, now: u64) -> (start: PollStart)
        requires
            old(self).wf(),
            old(self)@.issued(task@),
            old(self)@.can_queue(task@, TaskPhase::Idle),
        ensures
            final(self).wf(),
            old(self)@.keeps_handles(final(self)@),
            task@.task matches Some(id) ==> old(self)@.allows(Operation::BeginPoll { id, now }),
            match task@.task {
                Some(id) => (final(self)@, start.decision, start.wakes@)
                    == old(self)@.begin_poll(id, now),
                None => {
                    &&& final(self)@ == old(self)@
                    &&& start.decision is Direct
                    &&& start.wakes@.len() == 0
                },
            },
            !(start.decision is Wait) ==> final(self)@.may_finish(task@),
    {
        let id = match task.task {
            Some(id) => id,
            None => {
                return PollStart { decision: PollDecision::Direct, wakes: WakeBatch::new() };
            },
        };
        let direct = self.state.is_direct(id);
        match self.state.task(id) {
            Some(found) => {
                let mut control = found;
                control.register_executor_waker();
                self.state.touch(id, control);
                match control.begin_poll(direct) {
                    BeginPoll::Enqueue => {
                        self.state.enqueue(id, now);
                        let ghost queued = self@;
                        let wakes = self.dispatch(now);
                        proof {
                            lemma_moves_on_twice(old(self)@, queued, self@);
                        }
                        PollStart { decision: PollDecision::Wait, wakes }
                    },
                    BeginPoll::Proceed(decision) => {
                        self.state.touch(id, control);
                        assert(self@.tasks =~= old(self)@.begin_poll(id, now).0.tasks);
                        PollStart { decision, wakes: WakeBatch::new() }
                    },
                }
            },
            None => PollStart { decision: PollDecision::Wait, wakes: WakeBatch::new() },
        }
    }

    /// A wrapped future has called its proxy waker.
    pub fn notify(&mut self, proxy: ProxyWaker, now: u64) -> (wakes: WakeBatch)
        requires
            old(self).wf(),
            old(self)@.issued(proxy@),
            old(self)@.can_queue(proxy@, TaskPhase::Idle),
        ensures
            final(self).wf(),
            old(self)@.keeps_handles(final(self)@),
            old(self)@.allows(
                Operation::Notify { id: proxy@.task->0, c: proxy@.class, now },
            ),
            (final(self)@, wakes@) == old(self)@.notify(proxy@.task->0, proxy@.class, now),
    {
        let id = proxy.task;
        self.state.count_wake(proxy.class.id());
        let direct = self.state.is_direct(id);
        let mut wakes = WakeBatch::new();
        if let Some(found) = self.state.task(id) {
            let mut control = found;
            match control.notify(direct) {
                Notify::Enqueue => {
                    self.state.enqueue(id, now);
                    let ghost queued = self@;
                    let woken = self.dispatch(now);
                    proof {
                        lemma_moves_on_twice(old(self)@, queued, self@);
                    }
                    return woken;
                },
                Notify::WakeExecutor => {
                    if control.has_waker {
                        wakes.push(id);
                        assert(wakes@ =~= seq![id]);
                    }
                },
                Notify::Nothing => {
                    self.state.touch(id, control);
                    assert(self@.tasks =~= old(self)@.notify(id, proxy@.class, now).0.tasks);
                },
            }
        }
        wakes
    }

    /// A poll has returned and left its future pending. Admitted polls are
    /// charged with their execution time; direct ones are not.
    pub fn finish_pending(&mut self, task: &Scheduled, exec_time: Option<u64>, now: u64) -> (wakes:
        WakeBatch)
        requires
            old(self).wf(),
            old(self)@.issued(task@),
            old(self)@.may_finish(task@),
            old(self)@.can_queue(task@, TaskPhase::PollingNotified),
        ensures
            final(self).wf(),
            old(self)@.keeps_handles(final(self)@),
            task@.task matches Some(id) ==> old(self)@.allows(
                Operation::FinishPending { id, exec_time, now },
            ),
            match task@.task {
                Some(id) => (final(self)@, wakes@) == old(self)@.finish_pending(
                    id,
                    exec_time,
                    now,
                ),
                None => final(self)@ == old(self)@ && wakes@.len() == 0,
            },
    {
        let id = match task.task {
            Some(id) => id,
            None => {
                return WakeBatch::new();
            },
        };
        let direct = self.state.is_direct(id);
        if let Some(found) = self.state.task(id) {
            let mut control = found;
            match control.finish_pending(direct) {
                FinishPending::Release => {
                    self.state.release(id, exec_time);
                    let ghost released = self@;
                    let wakes = self.dispatch(now);
                    proof {
                        lemma_moves_on_twice(old(self)@, released, self@);
                    }
                    return wakes;
                },
                FinishPending::ReleaseAndRequeue => {
                    self.state.release(id, exec_time);
                    self.state.enqueue(id, now);
                    let ghost queued = self@;
                    let wakes = self.dispatch(now);
                    proof {
                        lemma_moves_on_twice(old(self)@, queued, self@);
                    }
                    return wakes;
                },
                FinishPending::ReleaseAndWake => {
                    self.state.release(id, exec_time);
                    let ghost released = self@;
                    let mut wakes = self.dispatch(now);
                    let ghost woken = wakes@;
                    proof {
                        lemma_moves_on_twice(old(self)@, released, self@);
                    }
                    if control.has_waker {
                        wakes.push(id);
                    }
                    assert(wakes@ =~= woken + old(self)@.own_waker(id));
                    return wakes;
                },
                FinishPending::Nothing => {},
            }
        }
        WakeBatch::new()
    }

    /// A poll has completed its future. Admitted polls are charged with their
    /// execution time; direct ones are not.
    pub fn finish_ready(&mut self, task: &Scheduled, exec_time: Option<u64>, now: u64) -> (wakes:
        WakeBatch)
        requires
            old(self).wf(),
            old(self)@.issued(task@),
            old(self)@.may_finish(task@),
        ensures
            final(self).wf(),
            old(self)@.keeps_handles(final(self)@),
            task@.task matches Some(id) ==> old(self)@.allows(
                Operation::FinishReady { id, exec_time, now },
            ),
            match task@.task {
                Some(id) => (final(self)@, wakes@) == old(self)@.finish_ready(id, exec_time, now),
                None => final(self)@ == old(self)@ && wakes@.len() == 0,
            },
    {
        let id = match task.task {
            Some(id) => id,
            None => {
                return WakeBatch::new();
            },
        };
        if let Some(control) = self.state.task(id) {
            if control.holds_slot() {
                self.state.release(id, exec_time);
                self.state.complete(id);
                let ghost completed = self@;
                let wakes = self.dispatch(now);
                proof {
                    lemma_moves_on_twice(old(self)@, completed, self@);
                }
                return wakes;
            }
            self.state.complete(id);
        }
        WakeBatch::new()
    }

    /// A wrapped future has been dropped. If it had not returned, it is counted
    /// as cancelled, and leaves its queue or gives its slot back. An aborted poll
    /// is not charged.
    pub fn cancel(&mut self, task: &Scheduled, now: u64) -> (wakes: WakeBatch)
        requires
            old(self).wf(),
            old(self)@.issued(task@),
        ensures
            final(self).wf(),
            old(self)@.keeps_handles(final(self)@),
            match task@.task {
                Some(id) => (final(self)@, wakes@) == old(self)@.cancel(id, now),
                None => final(self)@ == old(self)@ && wakes@.len() == 0,
            },
    {
        let id = match task.task {
            Some(id) => id,
            None => {
                return WakeBatch::new();
            },
        };
        match self.state.task(id) {
            Some(control) => {
                match control.phase {
                    TaskPhase::Idle => {
                        self.state.abandon(id);
                    },
                    TaskPhase::Queued => {
                        self.state.abandon_queued(id);
                    },
                    _ => {
                        self.state.free_slot(id);
                        self.state.abandon(id);
                    },
                }
                let ghost gone = self@;
                let wakes = self.dispatch(now);
                proof {
                    lemma_moves_on_twice(old(self)@, gone, self@);
                }
                wakes
            },
            None => WakeBatch::new(),
        }
    }
}

} // verus!
