//! Handles bound to one class.

use vstd::prelude::*;

use crate::class::TaskClass;
use crate::model::SchedulerModel;
use crate::scheduler::{Scheduled, Scheduler};

verus! {

/// A handle for wrapping futures in one scheduling class.
#[derive(Clone, Copy, Debug)]
pub struct Spawner {
    class: TaskClass,
}

impl View for Spawner {
    type V = u32;

    closed spec fn view(&self) -> u32 {
        self.class@
    }
}

impl Spawner {
    /// Creates a handle for `class`.
    pub(crate) fn new(class: TaskClass) -> (spawner: Spawner)
        ensures
            spawner@ == class@,
    {
        Spawner { class }
    }

    /// Returns this spawner's scheduling class.
    pub fn class(&self) -> (class: TaskClass)
        ensures
            class@ == self@,
    {
        self.class
    }

    /// Wraps a future in this spawner's class.
    pub fn schedule(&self, scheduler: &mut Scheduler, now: u64) -> (task: Scheduled)
        requires
            old(scheduler).wf(),
            old(scheduler)@.enabled ==> old(scheduler)@.next_task < u64::MAX,
        ensures
            final(scheduler).wf(),
            old(scheduler)@.keeps_handles(final(scheduler)@),
            final(scheduler)@ == old(scheduler)@.schedule(TaskClass::of(self@), now),
            task@.class == self@,
            task@.task == (if old(scheduler)@.enabled {
                Some(old(scheduler)@.next_task)
            } else {
                None
            }),
            final(scheduler)@.issued(task@),
    {
        broadcast use TaskClass::lemma_of_view;

        scheduler.schedule_in(self.class, now)
    }
}

/// A spawner wraps a future exactly as its scheduler does for the class that the
/// spawner was made for, whether or not that class is known.
pub proof fn law_spawners_wrap_in_their_class(m: SchedulerModel, class: TaskClass, now: u64)
    ensures
        m.schedule(TaskClass::of(class@), now) == m.schedule(class, now),
{
    broadcast use TaskClass::lemma_of_view;

}

} // verus!
