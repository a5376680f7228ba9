//! The scheduler that is used where none is named.
//!
//! A process keeps it in one slot, which is filled once: by hand, or at the
//! latest when the scheduler is first asked for.

use vstd::prelude::*;

verus! {

/// Returns the scheduler in the slot, and fills the slot first if that has not
/// been done.
pub fn default_scheduler<S, F: FnOnce() -> S>(slot: &mut Option<S>, init: F) -> (scheduler: &mut S)
    requires
        *old(slot) is None ==> init.requires(()),
    ensures
        match *old(slot) {
            Some(s) => *scheduler == s,
            None => init.ensures((), *scheduler),
        },
        *final(slot) == Some(*final(scheduler)),
{
    if slot.is_none() {
        *slot = Some(init());
    }
    slot.as_mut().unwrap()
}

/// Fills the slot by hand. If it has been filled before, the scheduler is handed
/// back and the slot stays as it is.
pub fn set_default_scheduler<S>(slot: &mut Option<S>, scheduler: S) -> (outcome: Result<(), S>)
    ensures
        *old(slot) is None ==> outcome == Ok::<(), S>(()) && *final(slot) == Some(scheduler),
        *old(slot) is Some ==> outcome == Err::<(), S>(scheduler) && *final(slot) == *old(slot),
{
    if slot.is_some() {
        return Err(scheduler);
    }
    *slot = Some(scheduler);
    Ok(())
}

} // verus!
