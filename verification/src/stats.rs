//! Counters of a scheduler and of its classes.

use std::collections::BTreeMap;

use vstd::prelude::*;

verus! {

/// Counters of one class in a [`SchedulerStats`] snapshot.
///
/// Spans of time are in nanoseconds.
#[derive(Clone, Copy, Debug, PartialEq, Eq)]
pub struct ClassStats {
    /// Configured relative weight, or zero for a class that is configured by a
    /// soft CPU limit.
    pub weight: u32,
    /// Live queue entries at the time of the snapshot.
    pub queued: usize,
    /// Futures wrapped for this class.
    pub tasks: u64,
    /// Proxy-waker calls received from inner futures.
    pub wakes: u64,
    /// Polls admitted to the executor.
    pub polls: u64,
    /// Futures that returned normally.
    pub completed: u64,
    /// Futures dropped or aborted before returning.
    pub cancelled: u64,
    /// Cumulative time from a task's entry into the admission queue to its first
    /// admission. It excludes the executor's own queues and the polls themselves.
    pub total_admission_wait: u128,
    /// Cumulative time that this class's futures spent inside admitted polls.
    /// Aborted or cancelled polls are deliberately not charged.
    pub total_exec_time: u128,
    /// Tasks that have been admitted at least once.
    pub admitted: u64,
}

/// Counters that are all zero, for a class of the given weight.
pub open spec fn fresh_stats(weight: u32) -> ClassStats {
    ClassStats {
        weight,
        queued: 0,
        tasks: 0,
        wakes: 0,
        polls: 0,
        completed: 0,
        cancelled: 0,
        total_admission_wait: 0,
        total_exec_time: 0,
        admitted: 0,
    }
}

impl ClassStats {
    /// Counters that are all zero, for a class of the given weight.
    pub(crate) fn fresh(weight: u32) -> (stats: ClassStats)
        ensures
            stats == fresh_stats(weight),
    {
        ClassStats {
            weight,
            queued: 0,
            tasks: 0,
            wakes: 0,
            polls: 0,
            completed: 0,
            cancelled: 0,
            total_admission_wait: 0,
            total_exec_time: 0,
            admitted: 0,
        }
    }
}

impl Default for ClassStats {
    fn default() -> (stats: ClassStats)
        ensures
            stats == fresh_stats(0),
    {
        ClassStats::fresh(0)
    }
}

/// A point-in-time scheduler snapshot.
#[derive(Clone, Debug, PartialEq, Eq)]
pub struct SchedulerStats {
    /// Maximum admitted polls waiting in or running on the executor.
    pub max_concurrent_polls: usize,
    /// Currently admitted polls.
    pub active_polls: usize,
    /// Counters, by class identifier.
    pub classes: BTreeMap<u32, ClassStats>,
}

impl Default for SchedulerStats {
    /// Returns a snapshot that lists nothing.
    fn default() -> (stats: SchedulerStats)
        ensures
            stats.max_concurrent_polls == 0,
            stats.active_polls == 0,
            stats.classes@ == Map::<u32, ClassStats>::empty(),
    {
        SchedulerStats { max_concurrent_polls: 0, active_polls: 0, classes: BTreeMap::new() }
    }
}

} // verus!
