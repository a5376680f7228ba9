//! Configuration of a scheduler.

use std::collections::BTreeMap;

use vstd::prelude::*;

use crate::class::{Entitlement, SoftCpuLimit, TaskClass};
use crate::model::SchedulerModel;
use crate::scheduler::Scheduler;

verus! {

/// Builds a weighted scheduler.
#[derive(Clone, Debug)]
pub struct SchedulerBuilder {
    max_concurrent_polls: usize,
    entitlements: BTreeMap<u32, Entitlement>,
}

/// A configuration: the number of slots, and what each class is entitled to.
pub ghost struct BuilderModel {
    /// How many tasks may hold a slot.
    pub max_concurrent_polls: usize,
    /// Entitlements, by class identifier.
    pub entitlements: Map<u32, Entitlement>,
}

impl View for SchedulerBuilder {
    type V = BuilderModel;

    closed spec fn view(&self) -> BuilderModel {
        BuilderModel {
            max_concurrent_polls: self.max_concurrent_polls,
            entitlements: self.entitlements@,
        }
    }
}

impl BuilderModel {
    /// Whether a scheduler can be built from this configuration.
    pub open spec fn wf(self) -> bool {
        &&& self.max_concurrent_polls > 0
        &&& self.entitlements.dom().finite()
        &&& forall|c: u32| #[trigger]
            self.entitlements.contains_key(c) ==> self.entitlements[c].valid()
    }
}

impl SchedulerBuilder {
    /// Creates a builder with a default class of weight one, and with a slot for
    /// each unit of the machine's parallelism, or one where that is not known.
    pub fn new(available_parallelism: Option<usize>) -> (builder: SchedulerBuilder)
        requires
            available_parallelism matches Some(n) ==> n > 0,
        ensures
            builder@.wf(),
            builder@.max_concurrent_polls == (match available_parallelism {
                Some(n) => n,
                None => 1,
            }),
            builder@.entitlements == map![0u32 => Entitlement::weighted(1)],
    {
        let max_concurrent_polls = match available_parallelism {
            Some(n) => n,
            None => 1,
        };
        let mut entitlements: BTreeMap<u32, Entitlement> = BTreeMap::new();
        entitlements.insert(TaskClass::default().id(), Entitlement::from_weight(1));
        let builder = SchedulerBuilder { max_concurrent_polls, entitlements };
        assert(builder@.entitlements =~= map![0u32 => Entitlement::weighted(1)]);
        builder
    }

    /// Limits how many admitted polls may wait in, or run on, the executor.
    ///
    /// For CPU-oriented workloads this should normally equal the executor's
    /// number of workers.
    pub fn max_concurrent_polls(self, limit: usize) -> (builder: SchedulerBuilder)
        requires
            self@.wf(),
            limit > 0,
        ensures
            builder@.wf(),
            builder@ == (BuilderModel { max_concurrent_polls: limit, ..self@ }),
    {
        SchedulerBuilder { max_concurrent_polls: limit, entitlements: self.entitlements }
    }

    /// Sets a class's relative share by weight. One unit counts as one core.
    ///
    /// For example, weights 3 and 7 give 30% and 70% of the execution time while
    /// both classes remain backlogged. An idle class reserves no slots.
    pub fn weight(self, class: TaskClass, weight: u32) -> (builder: SchedulerBuilder)
        requires
            self@.wf(),
            weight > 0,
        ensures
            builder@.wf(),
            builder@ == (BuilderModel {
                entitlements: self@.entitlements.insert(class@, Entitlement::weighted(weight)),
                ..self@
            }),
    {
        let mut entitlements = self.entitlements;
        entitlements.insert(class.id(), Entitlement::from_weight(weight));
        SchedulerBuilder { max_concurrent_polls: self.max_concurrent_polls, entitlements }
    }

    /// Sets a class's relative share by a soft CPU limit.
    pub fn soft_cpu_limit(self, class: TaskClass, limit: SoftCpuLimit) -> (builder:
        SchedulerBuilder)
        requires
            self@.wf(),
        ensures
            builder@.wf(),
            builder@ == (BuilderModel {
                entitlements: self@.entitlements.insert(class@, Entitlement::limited(limit)),
                ..self@
            }),
    {
        let mut entitlements = self.entitlements;
        entitlements.insert(class.id(), Entitlement::from_limit(limit));
        SchedulerBuilder { max_concurrent_polls: self.max_concurrent_polls, entitlements }
    }

    /// Creates the scheduler.
    pub fn build(self) -> (scheduler: Scheduler)
        requires
            self@.wf(),
        ensures
            scheduler.wf(),
            scheduler@ == SchedulerModel::initial(
                self@.max_concurrent_polls,
                self@.entitlements,
            ),
    {
        Scheduler::from_entitlements(self.max_concurrent_polls, &self.entitlements)
    }
}

} // verus!
