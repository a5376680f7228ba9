//! The default scheduler's slot, and batches of wakes.

use catio::{default_scheduler, set_default_scheduler, Scheduler, WakeBatch};

#[test]
fn first_default_stays() {
    let mut slot: Option<u8> = None;
    assert_eq!(Ok(()), set_default_scheduler(&mut slot, 1));
    assert_eq!(Err(2), set_default_scheduler(&mut slot, 2));
    assert_eq!(1, *default_scheduler(&mut slot, || 3));
    assert_eq!(Some(1), slot);
}

#[test]
fn default_is_made_when_first_asked_for() {
    let mut slot = None;
    let made = default_scheduler(&mut slot, || Scheduler::builder(Some(3)).build());
    assert_eq!(3, made.stats().max_concurrent_polls);
    let _ = made.set_max_concurrent_polls(5, 0);
    let again = default_scheduler(&mut slot, || Scheduler::builder(Some(3)).build());
    assert_eq!(5, again.stats().max_concurrent_polls);
    let late = Scheduler::builder(Some(9)).build();
    let returned = set_default_scheduler(&mut slot, late).unwrap_err();
    assert_eq!(9, returned.stats().max_concurrent_polls);
}

#[test]
fn batch_keeps_its_order() {
    let mut batch = WakeBatch::new();
    assert!(WakeBatch::new().into_tasks().is_empty());
    batch.push(5);
    batch.push(3);
    batch.push(5);
    assert_eq!(vec![5, 3, 5], batch.into_tasks());
}
