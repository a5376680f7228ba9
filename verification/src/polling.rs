//! The polls of wrapped futures, with the wakers of the executors that make them.
//!
//! An executor that keeps a table of wakers beside the scheduler, and goes through
//! these functions, keeps the two in step: no wake is lost.

use vstd::prelude::*;

use crate::batch::WakeBatch;
use crate::control::{PollDecision, TaskPhase};
use crate::laws::Operation;
use crate::scheduler::{Scheduled, Scheduler};
use crate::wakers::{executors, in_step, law_no_wake_is_lost, law_wakers_stay_in_step, Wakers};

verus! {

/// The outcome of an executor's coming to poll a wrapped future.
#[derive(Debug)]
pub struct Polled<W> {
    /// What the executor does.
    pub decision: PollDecision,
    /// The tasks to wake.
    pub wakes: WakeBatch,
    /// The waker that is not kept, if any.
    pub dropped: Option<W>,
}

/// The outcome of the end of a poll, or of a future.
#[derive(Debug)]
pub struct Ended<W> {
    /// The tasks to wake.
    pub wakes: WakeBatch,
    /// The waker that is no longer kept, if any.
    pub dropped: Option<W>,
}

/// What is kept in a table under `id`, if anything.
pub open spec fn kept<W>(wakers: Map<u64, W>, id: u64) -> Option<W> {
    if wakers.contains_key(id) {
        Some(wakers[id])
    } else {
        None
    }
}

impl Scheduled {
    /// An executor has come to poll the future with `waker`. Its waker takes the
    /// place of an earlier one, unless that one, as `same` says, wakes the same
    /// executor. Then the scheduler decides.
    pub fn poll<W>(
        &self,
        scheduler: &mut Scheduler,
        wakers: &mut Wakers<W>,
        waker: W,
        same: bool,
        now: u64,
    ) -> (polled: Polled<W>)
        requires
            old(scheduler).wf(),
            old(scheduler)@.issued(self@),
            old(scheduler)@.can_queue(self@, TaskPhase::Idle),
            in_step(old(scheduler)@, old(wakers)@),
        ensures
            final(scheduler).wf(),
            old(scheduler)@.keeps_handles(final(scheduler)@),
            in_step(final(scheduler)@, final(wakers)@),
            match self@.task {
                Some(id) => {
                    &&& (final(scheduler)@, polled.decision, polled.wakes@) == old(
                        scheduler,
                    )@.begin_poll(id, now)
                    &&& if same && old(wakers)@.contains_key(id) {
                        final(wakers)@ == old(wakers)@ && polled.dropped == Some(waker)
                    } else {
                        final(wakers)@ == old(wakers)@.insert(id, waker) && polled.dropped == kept(
                            old(wakers)@,
                            id,
                        )
                    }
                },
                None => {
                    &&& final(scheduler)@ == old(scheduler)@
                    &&& final(wakers)@ == old(wakers)@
                    &&& polled.decision is Direct
                    &&& polled.wakes@.len() == 0
                    &&& polled.dropped == Some(waker)
                },
            },
            executors(final(wakers)@, polled.wakes@).len() == polled.wakes@.len(),
            !(polled.decision is Wait) ==> final(scheduler)@.may_finish(self@),
    {
        let dropped = match self.task() {
            Some(id) => wakers.register(id, waker, same),
            None => Some(waker),
        };
        proof {
            scheduler.lemma_wf();
        }
        let start = scheduler.begin_poll(self, now);
        proof {
            if let Some(id) = self@.task {
                let m = old(scheduler)@;
                let op = Operation::BeginPoll { id, now };
                assert(wakers@.remove(id) =~= old(wakers)@.remove(id));
                law_wakers_stay_in_step(m, op, old(wakers)@, wakers@);
                law_no_wake_is_lost(m, op, wakers@, start.wakes@);
            }
        }
        Polled { decision: start.decision, wakes: start.wakes, dropped }
    }

    /// A poll has returned. If it completed the future, the waker goes.
    pub fn finish<W>(
        &self,
        scheduler: &mut Scheduler,
        wakers: &mut Wakers<W>,
        ready: bool,
        exec_time: Option<u64>,
        now: u64,
    ) -> (ended: Ended<W>)
        requires
            old(scheduler).wf(),
            old(scheduler)@.issued(self@),
            old(scheduler)@.may_finish(self@),
            !ready ==> old(scheduler)@.can_queue(self@, TaskPhase::PollingNotified),
            in_step(old(scheduler)@, old(wakers)@),
        ensures
            final(scheduler).wf(),
            old(scheduler)@.keeps_handles(final(scheduler)@),
            in_step(final(scheduler)@, final(wakers)@),
            match self@.task {
                Some(id) => if ready {
                    &&& (final(scheduler)@, ended.wakes@) == old(scheduler)@.finish_ready(
                        id,
                        exec_time,
                        now,
                    )
                    &&& final(wakers)@ == old(wakers)@.remove(id)
                    &&& ended.dropped == kept(old(wakers)@, id)
                } else {
                    &&& (final(scheduler)@, ended.wakes@) == old(scheduler)@.finish_pending(
                        id,
                        exec_time,
                        now,
                    )
                    &&& final(wakers)@ == old(wakers)@
                    &&& ended.dropped is None
                },
                None => {
                    &&& final(scheduler)@ == old(scheduler)@
                    &&& final(wakers)@ == old(wakers)@
                    &&& ended.wakes@.len() == 0
                    &&& ended.dropped is None
                },
            },
            executors(final(wakers)@, ended.wakes@).len() == ended.wakes@.len(),
    {
        proof {
            scheduler.lemma_wf();
        }
        let mut dropped: Option<W> = None;
        let wakes = if ready {
            if let Some(id) = self.task() {
                dropped = wakers.remove(id);
            }
            scheduler.finish_ready(self, exec_time, now)
        } else {
            scheduler.finish_pending(self, exec_time, now)
        };
        proof {
            if let Some(id) = self@.task {
                let m = old(scheduler)@;
                let op = if ready {
                    Operation::FinishReady { id, exec_time, now }
                } else {
                    Operation::FinishPending { id, exec_time, now }
                };
                law_wakers_stay_in_step(m, op, old(wakers)@, wakers@);
                law_no_wake_is_lost(m, op, wakers@, wakes@);
            }
        }
        Ended { wakes, dropped }
    }

    /// The future has been dropped, and its waker goes.
    pub fn abandon<W>(&self, scheduler: &mut Scheduler, wakers: &mut Wakers<W>, now: u64) -> (ended:
        Ended<W>)
        requires
            old(scheduler).wf(),
            old(scheduler)@.issued(self@),
            in_step(old(scheduler)@, old(wakers)@),
        ensures
            final(scheduler).wf(),
            old(scheduler)@.keeps_handles(final(scheduler)@),
            in_step(final(scheduler)@, final(wakers)@),
            match self@.task {
                Some(id) => {
                    &&& (final(scheduler)@, ended.wakes@) == old(scheduler)@.cancel(id, now)
                    &&& final(wakers)@ == old(wakers)@.remove(id)
                    &&& ended.dropped == kept(old(wakers)@, id)
                },
                None => {
                    &&& final(scheduler)@ == old(scheduler)@
                    &&& final(wakers)@ == old(wakers)@
                    &&& ended.wakes@.len() == 0
                    &&& ended.dropped is None
                },
            },
            executors(final(wakers)@, ended.wakes@).len() == ended.wakes@.len(),
    {
        proof {
            scheduler.lemma_wf();
        }
        let dropped = match self.task() {
            Some(id) => wakers.remove(id),
            None => None,
        };
        let wakes = scheduler.cancel(self, now);
        proof {
            if let Some(id) = self@.task {
                let m = old(scheduler)@;
                let op = Operation::Cancel { id, now };
                law_wakers_stay_in_step(m, op, old(wakers)@, wakers@);
                law_no_wake_is_lost(m, op, wakers@, wakes@);
            }
        }
        Ended { wakes, dropped }
    }
}

} // verus!
