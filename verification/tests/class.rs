//! Classes, soft CPU limits and entitlements.

use catio::class::Entitlement;
use catio::{ClassStats, SoftCpuLimit, TaskClass};

#[test]
fn class_keeps_its_identifier() {
    assert_eq!(7, TaskClass::new(7).id());
    assert_eq!(0, TaskClass::default().id());
    assert_eq!(TaskClass::new(0), TaskClass::default());
    assert!(TaskClass::new(1) < TaskClass::new(2));
}

#[test]
fn class_is_written_in_decimal() {
    assert_eq!("0", TaskClass::default().to_string());
    assert_eq!("9", TaskClass::new(9).to_string());
    assert_eq!("10", TaskClass::new(10).to_string());
    assert_eq!("1024", TaskClass::new(1024).to_string());
    assert_eq!("4294967295", TaskClass::new(u32::MAX).to_string());
}

#[test]
fn limits_are_positive() {
    assert!(SoftCpuLimit::from_millicores(0).is_none());
    assert_eq!(1, SoftCpuLimit::from_millicores(1).unwrap().millicores());
    assert!(SoftCpuLimit::from_cores(0).is_none());
    assert_eq!(4_294_967_000, SoftCpuLimit::from_cores(4_294_967).unwrap().millicores());
    assert!(SoftCpuLimit::from_cores(4_294_968).is_none());
}

#[test]
fn weight_counts_as_that_many_cores() {
    let weighted = Entitlement::from_weight(2);
    let limited = Entitlement::from_limit(SoftCpuLimit::from_cores(2).unwrap());
    assert_eq!(2_000, weighted.millicores);
    assert_eq!(weighted.millicores, limited.millicores);
    assert_eq!(2, weighted.weight);
    assert_eq!(0, limited.weight);
    assert_eq!(4_294_967_295_000, Entitlement::from_weight(u32::MAX).millicores);
}

#[test]
fn counters_start_at_zero() {
    let stats = ClassStats::default();
    assert_eq!(0, stats.weight);
    assert_eq!(0, stats.queued);
    assert_eq!(0, stats.tasks);
    assert_eq!(0, stats.wakes);
    assert_eq!(0, stats.polls);
    assert_eq!(0, stats.completed);
    assert_eq!(0, stats.cancelled);
    assert_eq!(0, stats.total_admission_wait);
    assert_eq!(0, stats.total_exec_time);
    assert_eq!(0, stats.admitted);
}
