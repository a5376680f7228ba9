//! The life of one scheduled task between wakes, admissions and polls.

use vstd::prelude::*;

use crate::class::TaskClass;

verus! {

/// Where a task stands between its wakes and its polls.
#[derive(Clone, Copy, Debug, PartialEq, Eq, Structural)]
pub enum TaskPhase {
    /// Neither runnable nor running.
    Idle,
    /// Runnable, and waiting in the admission queue of its class.
    Queued,
    /// Admitted: it holds a slot, and its executor has been woken.
    Admitted,
    /// Inside an admitted poll; it holds a slot.
    Polling,
    /// Inside an admitted poll and woken since the poll began; it holds a slot.
    PollingNotified,
    /// Returned, dropped or aborted.
    Finished,
}

impl TaskPhase {
    /// Whether a task in this phase holds one of the scheduler's slots.
    pub open spec fn holds_slot(self) -> bool {
        self is Admitted || self is Polling || self is PollingNotified
    }
}

/// What the executor does with a task that it has come to poll.
#[derive(Clone, Copy, Debug, PartialEq, Eq, Structural)]
pub enum PollDecision {
    /// Report the task as pending; it is woken when it is admitted.
    Wait,
    /// Poll the inner future with the proxy waker, and report the time it took.
    Managed,
    /// Poll the inner future with the executor's own waker; the scheduler takes
    /// no part in it.
    Direct,
}

/// What follows from the start of a poll.
#[derive(Clone, Copy, Debug, PartialEq, Eq, Structural)]
pub enum BeginPoll {
    /// The task became runnable and has to enter the queue.
    Enqueue,
    /// The executor proceeds as told.
    Proceed(PollDecision),
}

/// What follows from a proxy wake.
#[derive(Clone, Copy, Debug, PartialEq, Eq, Structural)]
pub enum Notify {
    /// The task became runnable and has to enter the queue.
    Enqueue,
    /// The task bypasses the queue: its executor is woken at once.
    WakeExecutor,
    /// The wake is already accounted for, or comes too late.
    Nothing,
}

/// What follows from a poll that left its future pending.
#[derive(Clone, Copy, Debug, PartialEq, Eq, Structural)]
pub enum FinishPending {
    /// The slot is free again.
    Release,
    /// The slot is free again, and the task has to enter the queue.
    ReleaseAndRequeue,
    /// The slot is free again, and the task's executor is woken at once.
    ReleaseAndWake,
    /// The poll was direct and held no slot.
    Nothing,
}

/// The scheduler's record of one task.
///
/// Whether a task is direct, that is whether it bypasses the admission queue,
/// is the scheduler's knowledge and is handed to each transition.
#[derive(Clone, Copy, Debug, PartialEq, Eq, Structural)]
pub struct TaskControl {
    /// The class that the task is charged to.
    pub class: TaskClass,
    /// Where the task stands.
    pub phase: TaskPhase,
    /// Whether an executor has polled the task and left a waker to be woken.
    pub has_waker: bool,
    /// When the task was created.
    pub created: u64,
    /// When the task last entered the admission queue, until it is admitted.
    pub queued_at: Option<u64>,
    /// Whether the task has been admitted at least once.
    pub admitted: bool,
}

impl TaskControl {
    /// A task that has just been created.
    pub open spec fn fresh(class: TaskClass, created: u64) -> TaskControl {
        TaskControl {
            class,
            phase: TaskPhase::Idle,
            has_waker: false,
            created,
            queued_at: None,
            admitted: false,
        }
    }

    /// Makes the record of a new task.
    pub(crate) fn new(class: TaskClass, created: u64) -> (task: TaskControl)
        ensures
            task == TaskControl::fresh(class, created),
    {
        TaskControl {
            class,
            phase: TaskPhase::Idle,
            has_waker: false,
            created,
            queued_at: None,
            admitted: false,
        }
    }

    /// Whether the task holds one of the scheduler's slots.
    pub fn holds_slot(&self) -> (holds: bool)
        ensures
            holds == self.phase.holds_slot(),
    {
        match self.phase {
            TaskPhase::Admitted | TaskPhase::Polling | TaskPhase::PollingNotified => true,
            TaskPhase::Idle | TaskPhase::Queued | TaskPhase::Finished => false,
        }
    }

    /// Records that an executor has left a waker for the task.
    pub fn register_executor_waker(&mut self)
        ensures
            *final(self) == (TaskControl { has_waker: true, ..*old(self) }),
    {
        self.has_waker = true;
    }

    /// An executor has come to poll the task.
    ///
    /// An idle task asks for admission, unless it is direct and may run at once.
    /// An admitted one starts its poll. In every other phase there is nothing to
    /// do but wait.
    pub fn begin_poll(&mut self, direct: bool) -> (next: BeginPoll)
        ensures
            match old(self).phase {
                TaskPhase::Idle => if direct {
                    next == BeginPoll::Proceed(PollDecision::Direct) && *final(self) == *old(self)
                } else {
                    next == BeginPoll::Enqueue && *final(self) == (TaskControl {
                        phase: TaskPhase::Queued,
                        ..*old(self)
                    })
                },
                TaskPhase::Admitted => next == BeginPoll::Proceed(PollDecision::Managed)
                    && *final(self) == (TaskControl { phase: TaskPhase::Polling, ..*old(self) }),
                _ => next == BeginPoll::Proceed(PollDecision::Wait) && *final(self) == *old(self),
            },
    {
        match self.phase {
            TaskPhase::Idle => {
                if direct {
                    BeginPoll::Proceed(PollDecision::Direct)
                } else {
                    self.phase = TaskPhase::Queued;
                    BeginPoll::Enqueue
                }
            },
            TaskPhase::Admitted => {
                self.phase = TaskPhase::Polling;
                BeginPoll::Proceed(PollDecision::Managed)
            },
            TaskPhase::Queued
            | TaskPhase::Polling
            | TaskPhase::PollingNotified
            | TaskPhase::Finished => BeginPoll::Proceed(PollDecision::Wait),
        }
    }

    /// The inner future has woken the task through its proxy.
    ///
    /// An idle task becomes runnable. A task inside a poll is marked, so that it
    /// is queued again when the poll ends. Every other wake is absorbed.
    pub fn notify(&mut self, direct: bool) -> (next: Notify)
        ensures
            match old(self).phase {
                TaskPhase::Idle => if direct {
                    next == Notify::WakeExecutor && *final(self) == *old(self)
                } else {
                    next == Notify::Enqueue && *final(self) == (TaskControl {
                        phase: TaskPhase::Queued,
                        ..*old(self)
                    })
                },
                TaskPhase::Polling => next == Notify::Nothing && *final(self) == (TaskControl {
                    phase: TaskPhase::PollingNotified,
                    ..*old(self)
                }),
                _ => next == Notify::Nothing && *final(self) == *old(self),
            },
    {
        match self.phase {
            TaskPhase::Idle => {
                if direct {
                    Notify::WakeExecutor
                } else {
                    self.phase = TaskPhase::Queued;
                    Notify::Enqueue
                }
            },
            TaskPhase::Polling => {
                self.phase = TaskPhase::PollingNotified;
                Notify::Nothing
            },
            TaskPhase::Queued
            | TaskPhase::Admitted
            | TaskPhase::PollingNotified
            | TaskPhase::Finished => Notify::Nothing,
        }
    }

    /// Whether a poll of the task may be under way: one that was admitted, or a
    /// direct one, which leaves the task idle.
    pub open spec fn may_finish(self, direct: bool) -> bool {
        match self.phase {
            TaskPhase::Polling | TaskPhase::PollingNotified => true,
            TaskPhase::Idle => direct,
            _ => false,
        }
    }

    /// A poll has returned and left the inner future pending.
    pub fn finish_pending(&mut self, direct: bool) -> (next: FinishPending)
        requires
            old(self).may_finish(direct),
        ensures
            match old(self).phase {
                TaskPhase::Polling => next == FinishPending::Release && *final(self)
                    == (TaskControl { phase: TaskPhase::Idle, ..*old(self) }),
                TaskPhase::PollingNotified => if direct {
                    next == FinishPending::ReleaseAndWake && *final(self) == (TaskControl {
                        phase: TaskPhase::Idle,
                        ..*old(self)
                    })
                } else {
                    next == FinishPending::ReleaseAndRequeue && *final(self) == (TaskControl {
                        phase: TaskPhase::Queued,
                        ..*old(self)
                    })
                },
                _ => next == FinishPending::Nothing && *final(self) == *old(self),
            },
    {
        match self.phase {
            TaskPhase::Polling => {
                self.phase = TaskPhase::Idle;
                FinishPending::Release
            },
            TaskPhase::PollingNotified => {
                if direct {
                    self.phase = TaskPhase::Idle;
                    FinishPending::ReleaseAndWake
                } else {
                    self.phase = TaskPhase::Queued;
                    FinishPending::ReleaseAndRequeue
                }
            },
            TaskPhase::Idle
            | TaskPhase::Queued
            | TaskPhase::Admitted
            | TaskPhase::Finished => FinishPending::Nothing,
        }
    }
}

} // verus!
