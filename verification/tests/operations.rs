//! The scheduler's operations, step by step.

use catio::{
    ClassStats, PollDecision, Scheduled, Scheduler, SchedulerBuilder, SchedulerStats,
    SoftCpuLimit, TaskClass, WakeBatch, Wakers,
};

fn class(id: u32) -> TaskClass {
    TaskClass::new(id)
}

fn builder(slots: usize) -> SchedulerBuilder {
    Scheduler::builder(None).max_concurrent_polls(slots)
}

fn counters(scheduler: &Scheduler, id: u32) -> ClassStats {
    scheduler.stats().classes[&id]
}

/// The first poll of a new task, which asks for its admission. Returns the tasks
/// to wake.
fn ask(scheduler: &mut Scheduler, task: &Scheduled, now: u64) -> Vec<u64> {
    let start = scheduler.begin_poll(task, now);
    assert_eq!(PollDecision::Wait, start.decision);
    start.wakes.into_tasks()
}

/// The poll of an admitted task.
fn enter(scheduler: &mut Scheduler, task: &Scheduled, now: u64) {
    let start = scheduler.begin_poll(task, now);
    assert_eq!(PollDecision::Managed, start.decision);
    assert!(start.wakes.into_tasks().is_empty());
}

/// A poll of an admitted task that wakes itself and takes `nanos`.
fn spin(scheduler: &mut Scheduler, task: &Scheduled, nanos: u64, now: u64) -> Vec<u64> {
    enter(scheduler, task, now);
    let proxy = task.proxy_waker().unwrap();
    assert!(scheduler.notify(proxy, now).into_tasks().is_empty());
    scheduler.finish_pending(task, Some(nanos), now).into_tasks()
}

fn woken(batch: WakeBatch) -> Vec<u64> {
    batch.into_tasks()
}

fn id(task: &Scheduled) -> u64 {
    task.task().unwrap()
}

#[test]
fn tasks_are_admitted_before_they_are_polled() {
    let mut s = builder(1).build();
    let t = s.schedule(0);
    assert_eq!(Some(0), t.task());
    assert_eq!(TaskClass::default(), t.class());
    assert_eq!(vec![0], ask(&mut s, &t, 10));
    assert_eq!(1, s.stats().active_polls);
    enter(&mut s, &t, 11);
    // A second executor that comes to poll meanwhile is sent away.
    assert!(ask(&mut s, &t, 12).is_empty());
    assert!(woken(s.finish_ready(&t, Some(5), 16)).is_empty());
    assert_eq!(0, s.stats().active_polls);
    let stats = counters(&s, 0);
    assert_eq!(1, stats.tasks);
    assert_eq!(1, stats.polls);
    assert_eq!(1, stats.admitted);
    assert_eq!(1, stats.completed);
    assert_eq!(0, stats.cancelled);
    assert_eq!(5, stats.total_exec_time);
    // Nothing is left of it.
    assert!(ask(&mut s, &t, 20).is_empty());
    assert!(woken(s.cancel(&t, 21)).is_empty());
    assert_eq!(stats, counters(&s, 0));
}

#[test]
fn each_class_is_served_in_the_order_of_its_queue() {
    let mut s = builder(1).build();
    let tasks: Vec<Scheduled> = (0..4).map(|_| s.schedule(0)).collect();
    assert_eq!(vec![0], ask(&mut s, &tasks[0], 1));
    for task in &tasks[1..] {
        assert!(ask(&mut s, task, 2).is_empty());
    }
    assert_eq!(3, counters(&s, 0).queued);
    for i in 0..3 {
        enter(&mut s, &tasks[i], 3);
        assert_eq!(vec![i as u64 + 1], woken(s.finish_ready(&tasks[i], None, 4)));
    }
    assert_eq!(0, counters(&s, 0).queued);
    assert_eq!(4, counters(&s, 0).polls);
}

#[test]
fn between_equal_passes_the_lower_class_is_first() {
    let mut s = builder(1).build();
    let holder = s.schedule(0);
    ask(&mut s, &holder, 0);
    let later = s.schedule_in(class(9), 0);
    let sooner = s.schedule_in(class(4), 0);
    assert!(ask(&mut s, &later, 1).is_empty());
    assert!(ask(&mut s, &sooner, 2).is_empty());
    assert_eq!(vec![id(&sooner)], woken(s.cancel(&holder, 3)));
    assert_eq!(vec![id(&later)], woken(s.cancel(&sooner, 4)));
}

/// Which of two classes is served after each has made one poll, the first of `a`
/// nanoseconds and the second of `b`.
fn served_after(builder: SchedulerBuilder, a: u64, b: u64) -> u32 {
    let mut s = builder.max_concurrent_polls(1).build();
    let first = [s.schedule_in(class(1), 0), s.schedule_in(class(1), 0)];
    let second = [s.schedule_in(class(2), 0), s.schedule_in(class(2), 0)];
    assert_eq!(vec![id(&first[0])], ask(&mut s, &first[0], 0));
    ask(&mut s, &first[1], 0);
    ask(&mut s, &second[0], 0);
    ask(&mut s, &second[1], 0);
    assert_eq!(vec![id(&second[0])], spin(&mut s, &first[0], a, 0));
    let next = spin(&mut s, &second[0], b, 0);
    if next == vec![id(&first[1])] {
        1
    } else {
        assert_eq!(vec![id(&second[1])], next);
        2
    }
}

#[test]
fn charges_are_times_over_weights() {
    let weights = || Scheduler::builder(None).weight(class(1), 1).weight(class(2), 2);
    // Ten nanoseconds of one unit are twenty of two.
    assert_eq!(2, served_after(weights(), 10, 19));
    assert_eq!(1, served_after(weights(), 10, 20));
    assert_eq!(1, served_after(weights(), 10, 21));
    let weights = || Scheduler::builder(None).weight(class(1), 3).weight(class(2), 7);
    assert_eq!(2, served_after(weights(), 300, 699));
    assert_eq!(1, served_after(weights(), 300, 700));
}

#[test]
fn charges_are_times_over_soft_limits() {
    let limits = || {
        Scheduler::builder(None)
            .soft_cpu_limit(class(1), SoftCpuLimit::from_millicores(500).unwrap())
            .soft_cpu_limit(class(2), SoftCpuLimit::from_millicores(1_500).unwrap())
    };
    assert_eq!(2, served_after(limits(), 100, 299));
    assert_eq!(1, served_after(limits(), 100, 300));
    let mixed = || {
        Scheduler::builder(None)
            .weight(class(1), 2)
            .soft_cpu_limit(class(2), SoftCpuLimit::from_cores(2).unwrap())
    };
    assert_eq!(2, served_after(mixed(), 100, 99));
    assert_eq!(1, served_after(mixed(), 100, 100));
}

#[test]
fn polls_that_share_the_machine_share_the_charge() {
    // Both classes have the same weight. The first poll of class one is one of
    // two, so that its hundred nanoseconds count as fifty.
    let next = |nanos: u64| {
        let mut s = builder(2).build();
        let a = s.schedule_in(class(1), 0);
        let other = s.schedule_in(class(3), 0);
        ask(&mut s, &a, 0);
        ask(&mut s, &other, 0);
        assert_eq!(2, s.stats().active_polls);
        let b = s.schedule_in(class(2), 0);
        ask(&mut s, &b, 0);
        assert_eq!(vec![id(&b)], spin(&mut s, &a, 100, 0));
        let _ = s.set_max_concurrent_polls(1, 0);
        enter(&mut s, &other, 0);
        assert!(woken(s.finish_ready(&other, None, 0)).is_empty());
        // Alone on the machine now.
        let next = spin(&mut s, &b, nanos, 0);
        if next == vec![id(&a)] {
            1
        } else {
            assert_eq!(vec![id(&b)], next);
            2
        }
    };
    assert_eq!(2, next(49));
    assert_eq!(1, next(50));
}

#[test]
fn competing_classes_share_execution_time_by_weight() {
    let mut s = builder(1).weight(class(1), 3).weight(class(2), 7).build();
    let tasks: Vec<Scheduled> = (0..8).map(|i| s.schedule_in(class(1 + i % 2), 0)).collect();
    let mut admitted = Vec::new();
    for task in &tasks {
        admitted.extend(ask(&mut s, task, 0));
    }
    for step in 0..10_000 {
        let task = &tasks[admitted.pop().unwrap() as usize];
        admitted.extend(spin(&mut s, task, 1_000, step));
        assert_eq!(1, s.stats().active_polls);
    }
    let first = counters(&s, 1).total_exec_time;
    let second = counters(&s, 2).total_exec_time;
    assert_eq!(10_000_000, first + second);
    assert!((2_999_000..=3_001_000).contains(&first));
}

#[test]
fn new_weights_share_anew() {
    let mut s = builder(1).weight(class(1), 3).weight(class(2), 7).build();
    let tasks: Vec<Scheduled> = (0..8).map(|i| s.schedule_in(class(1 + i % 2), 0)).collect();
    let mut admitted = Vec::new();
    for task in &tasks {
        admitted.extend(ask(&mut s, task, 0));
    }
    for step in 0..1_000 {
        let task = &tasks[admitted.pop().unwrap() as usize];
        admitted.extend(spin(&mut s, task, 1_000, step));
    }
    let before = counters(&s, 1).total_exec_time;
    let weights = vec![(class(1), 7), (class(2), 3)];
    assert!(woken(s.set_weights(&weights, 1_000)).is_empty());
    for step in 0..10_000 {
        let task = &tasks[admitted.pop().unwrap() as usize];
        admitted.extend(spin(&mut s, task, 1_000, step));
    }
    let first = counters(&s, 1).total_exec_time - before;
    assert!((6_998_000..=7_002_000).contains(&first));
}

#[test]
fn idle_class_rejoins_at_the_virtual_time() {
    let mut s = builder(1).weight(class(1), 1).weight(class(2), 1).build();
    let busy = [s.schedule_in(class(1), 0), s.schedule_in(class(1), 0)];
    let mut admitted = ask(&mut s, &busy[0], 0);
    ask(&mut s, &busy[1], 0);
    for step in 0..100 {
        let task = &busy[admitted.pop().unwrap() as usize];
        admitted.extend(spin(&mut s, task, 10, step));
    }
    // Class two has been idle all the time. The classes take turns: it has no
    // credit of a hundred polls.
    let idle = [s.schedule_in(class(2), 0), s.schedule_in(class(2), 0)];
    ask(&mut s, &idle[0], 100);
    ask(&mut s, &idle[1], 100);
    let mut turns = Vec::new();
    for step in 0..6 {
        let task = admitted.pop().unwrap();
        let handle = if task < 2 { &busy[task as usize] } else { &idle[task as usize - 2] };
        turns.push(handle.class().id());
        admitted.extend(spin(&mut s, handle, 10, 100 + step));
    }
    assert_eq!(vec![1, 2, 1, 2, 1, 2], turns);
}

#[test]
fn idle_classes_reserve_no_slots() {
    let mut s = builder(2).weight(class(1), 1).weight(class(2), 1_000).build();
    let tasks: Vec<Scheduled> = (0..3).map(|_| s.schedule_in(class(1), 0)).collect();
    assert_eq!(vec![0], ask(&mut s, &tasks[0], 0));
    assert_eq!(vec![1], ask(&mut s, &tasks[1], 0));
    assert!(ask(&mut s, &tasks[2], 0).is_empty());
    assert_eq!(2, s.stats().active_polls);
    assert_eq!(0, counters(&s, 2).polls);
}

#[test]
fn admission_wait_is_measured_to_the_first_admission() {
    let mut s = builder(1).build();
    let holder = s.schedule(0);
    ask(&mut s, &holder, 100);
    let waiting = s.schedule(100);
    ask(&mut s, &waiting, 105);
    assert_eq!(0, counters(&s, 0).total_admission_wait);
    assert_eq!(vec![1], woken(s.cancel(&holder, 125)));
    assert_eq!(20, counters(&s, 0).total_admission_wait);
    assert_eq!(2, counters(&s, 0).admitted);
    // A later admission counts as a poll and nothing else.
    enter(&mut s, &waiting, 130);
    assert!(woken(s.finish_pending(&waiting, Some(3), 133)).is_empty());
    let other = s.schedule(133);
    ask(&mut s, &other, 134);
    let proxy = waiting.proxy_waker().unwrap();
    assert!(woken(s.notify(proxy, 140)).is_empty());
    assert_eq!(vec![1], woken(s.cancel(&other, 160)));
    let stats = counters(&s, 0);
    assert_eq!(20, stats.total_admission_wait);
    assert_eq!(3, stats.admitted);
    assert_eq!(4, stats.polls);
    assert_eq!(3, stats.total_exec_time);
    assert_eq!(1, stats.wakes);
}

#[test]
fn clocks_that_go_back_add_no_wait() {
    let mut s = builder(1).build();
    let holder = s.schedule(0);
    ask(&mut s, &holder, 50);
    let waiting = s.schedule(50);
    ask(&mut s, &waiting, 60);
    assert_eq!(vec![1], woken(s.cancel(&holder, 40)));
    assert_eq!(0, counters(&s, 0).total_admission_wait);
}

#[test]
fn wakes_wait_for_admission() {
    let mut s = builder(1).build();
    let waiter = s.schedule(0);
    ask(&mut s, &waiter, 0);
    enter(&mut s, &waiter, 1);
    assert!(woken(s.finish_pending(&waiter, Some(1), 2)).is_empty());
    let holder = s.schedule(2);
    assert_eq!(vec![1], ask(&mut s, &holder, 3));
    let proxy = waiter.proxy_waker().unwrap();
    assert!(woken(s.notify(proxy, 4)).is_empty());
    assert_eq!(1, counters(&s, 0).queued);
    // Further wakes change nothing.
    assert!(woken(s.notify(proxy, 5)).is_empty());
    assert_eq!(1, counters(&s, 0).queued);
    assert_eq!(2, counters(&s, 0).wakes);
    assert_eq!(vec![0], woken(s.cancel(&holder, 6)));
    assert!(woken(s.notify(proxy, 7)).is_empty());
    assert_eq!(3, counters(&s, 0).wakes);
}

#[test]
fn wakes_during_a_poll_are_kept() {
    let mut s = builder(1).build();
    let task = s.schedule(0);
    ask(&mut s, &task, 0);
    enter(&mut s, &task, 1);
    let proxy = task.proxy_waker().unwrap();
    assert!(woken(s.notify(proxy, 2)).is_empty());
    assert!(woken(s.notify(proxy, 2)).is_empty());
    assert_eq!(vec![0], woken(s.finish_pending(&task, Some(1), 3)));
    assert_eq!(1, s.stats().active_polls);
    enter(&mut s, &task, 4);
    assert!(woken(s.finish_ready(&task, Some(1), 5)).is_empty());
    // A wake that comes too late is counted and nothing else.
    assert!(woken(s.notify(proxy, 6)).is_empty());
    assert_eq!(3, counters(&s, 0).wakes);
    assert_eq!(0, counters(&s, 0).queued);
}

#[test]
fn cancelling_waiting_work_frees_no_slot() {
    let mut s = builder(1).build();
    let holder = s.schedule(0);
    let cancelled = s.schedule(0);
    let waiting = s.schedule(0);
    ask(&mut s, &holder, 0);
    ask(&mut s, &cancelled, 1);
    ask(&mut s, &waiting, 2);
    assert_eq!(2, counters(&s, 0).queued);
    assert!(woken(s.cancel(&cancelled, 3)).is_empty());
    assert_eq!(1, s.stats().active_polls);
    assert_eq!(1, counters(&s, 0).queued);
    assert_eq!(1, counters(&s, 0).cancelled);
    assert_eq!(1, counters(&s, 0).admitted);
    enter(&mut s, &holder, 4);
    assert_eq!(vec![2], woken(s.finish_ready(&holder, None, 5)));
}

#[test]
fn cancelling_admitted_work_frees_its_slot_and_charges_nothing() {
    let mut s = builder(1).build();
    let holder = s.schedule(0);
    let waiting = s.schedule(0);
    ask(&mut s, &holder, 0);
    ask(&mut s, &waiting, 0);
    enter(&mut s, &holder, 1);
    assert_eq!(vec![1], woken(s.cancel(&holder, 1_000)));
    assert_eq!(1, s.stats().active_polls);
    let stats = counters(&s, 0);
    assert_eq!(0, stats.total_exec_time);
    assert_eq!(1, stats.cancelled);
    assert_eq!(0, stats.completed);
    assert!(woken(s.cancel(&waiting, 1_001)).is_empty());
    assert_eq!(0, s.stats().active_polls);
}

#[test]
fn every_task_is_accounted_for() {
    let mut s = builder(2).build();
    let tasks: Vec<Scheduled> = (0..5).map(|_| s.schedule(0)).collect();
    for task in &tasks {
        ask(&mut s, task, 0);
    }
    enter(&mut s, &tasks[0], 1);
    assert_eq!(vec![2], woken(s.finish_ready(&tasks[0], Some(1), 2)));
    assert!(woken(s.cancel(&tasks[3], 3)).is_empty());
    assert_eq!(vec![4], woken(s.cancel(&tasks[1], 4)));
    let stats = counters(&s, 0);
    assert_eq!(5, stats.tasks);
    assert_eq!(1, stats.completed);
    assert_eq!(2, stats.cancelled);
    assert_eq!(2, s.stats().active_polls);
    assert_eq!(0, stats.queued);
    assert_eq!(4, stats.admitted);
}

#[test]
fn limit_is_raised_and_lowered() {
    let mut s = builder(1).build();
    let tasks: Vec<Scheduled> = (0..5).map(|_| s.schedule(0)).collect();
    for task in &tasks {
        ask(&mut s, task, 0);
    }
    assert_eq!(vec![1, 2], woken(s.set_max_concurrent_polls(3, 1)));
    assert_eq!(3, s.stats().active_polls);
    assert_eq!(3, s.stats().max_concurrent_polls);
    assert!(woken(s.set_max_concurrent_polls(2, 2)).is_empty());
    assert_eq!(3, s.stats().active_polls);
    assert!(woken(s.cancel(&tasks[0], 3)).is_empty());
    assert_eq!(2, s.stats().active_polls);
    assert_eq!(vec![3], woken(s.cancel(&tasks[1], 4)));
    assert_eq!(2, s.stats().active_polls);
}

#[test]
fn disabling_hands_back_the_waiting_tasks() {
    let mut s = builder(1).build();
    let holder = s.schedule(0);
    let first = s.schedule(0);
    let second = s.schedule_in(class(5), 0);
    let idle = s.schedule(0);
    ask(&mut s, &holder, 0);
    ask(&mut s, &first, 0);
    ask(&mut s, &second, 0);
    assert!(s.is_enabled());
    let mut drained = woken(s.set_enabled(false));
    drained.sort();
    assert_eq!(vec![1, 2], drained);
    assert!(!s.is_enabled());
    assert_eq!(0, counters(&s, 0).queued);
    assert_eq!(0, counters(&s, 5).queued);
    // The holder keeps its slot until its poll ends, and is charged for it.
    assert_eq!(1, s.stats().active_polls);
    enter(&mut s, &holder, 1);
    assert!(woken(s.finish_pending(&holder, Some(4), 5)).is_empty());
    assert_eq!(0, s.stats().active_polls);
    assert_eq!(4, counters(&s, 0).total_exec_time);
    // From now on all four run directly.
    for task in [&holder, &first, &second, &idle] {
        let start = s.begin_poll(task, 6);
        assert_eq!(PollDecision::Direct, start.decision);
        assert!(start.wakes.into_tasks().is_empty());
    }
    assert!(woken(s.set_enabled(false)).is_empty());
}

#[test]
fn direct_tasks_stay_direct() {
    let mut s = builder(1).build();
    let task = s.schedule(0);
    ask(&mut s, &task, 0);
    enter(&mut s, &task, 1);
    assert!(woken(s.finish_pending(&task, Some(2), 3)).is_empty());
    assert!(woken(s.set_enabled(false)).is_empty());
    let proxy = task.proxy_waker().unwrap();
    // The wake reaches the executor at once.
    assert_eq!(vec![0], woken(s.notify(proxy, 4)));
    assert!(woken(s.set_enabled(true)).is_empty());
    let start = s.begin_poll(&task, 5);
    assert_eq!(PollDecision::Direct, start.decision);
    assert!(woken(s.finish_ready(&task, None, 6)).is_empty());
    let stats = counters(&s, 0);
    assert_eq!(1, stats.polls);
    assert_eq!(1, stats.completed);
    assert_eq!(2, stats.total_exec_time);
    // New tasks are managed again.
    let managed = s.schedule(7);
    assert_eq!(vec![1], ask(&mut s, &managed, 8));
    assert_eq!(2, counters(&s, 0).polls);
}

#[test]
fn disabling_during_a_notified_poll_wakes_the_executor() {
    let mut s = builder(1).build();
    let task = s.schedule(0);
    ask(&mut s, &task, 0);
    enter(&mut s, &task, 1);
    let proxy = task.proxy_waker().unwrap();
    assert!(woken(s.notify(proxy, 2)).is_empty());
    assert!(woken(s.set_enabled(false)).is_empty());
    assert_eq!(vec![0], woken(s.finish_pending(&task, Some(3), 4)));
    assert_eq!(0, s.stats().active_polls);
    assert_eq!(3, counters(&s, 0).total_exec_time);
    assert_eq!(PollDecision::Direct, s.begin_poll(&task, 5).decision);
}

#[test]
fn direct_tasks_leave_the_slots_alone() {
    let mut s = builder(1).build();
    let holder = s.schedule(0);
    let direct = s.schedule(0);
    ask(&mut s, &holder, 0);
    ask(&mut s, &direct, 0);
    assert_eq!(vec![1], woken(s.set_enabled(false)));
    assert!(woken(s.set_enabled(true)).is_empty());
    let waiting = s.schedule(1);
    assert!(ask(&mut s, &waiting, 2).is_empty());
    assert_eq!(PollDecision::Direct, s.begin_poll(&direct, 3).decision);
    // It panics, and is dropped.
    assert!(woken(s.cancel(&direct, 4)).is_empty());
    assert_eq!(1, s.stats().active_polls);
    assert_eq!(1, counters(&s, 0).queued);
    enter(&mut s, &holder, 5);
    assert_eq!(vec![2], woken(s.finish_ready(&holder, Some(1), 6)));
}

#[test]
fn disabled_scheduler_takes_no_notice() {
    let mut s = builder(1).build();
    assert!(woken(s.set_enabled(false)).is_empty());
    let task = s.schedule_in(class(101), 0);
    assert_eq!(None, task.task());
    assert!(task.proxy_waker().is_none());
    assert_eq!(class(101), task.class());
    assert!(!s.stats().classes.contains_key(&101));
    assert!(woken(s.set_enabled(true)).is_empty());
    assert_eq!(PollDecision::Direct, s.begin_poll(&task, 1).decision);
    assert!(woken(s.finish_pending(&task, None, 2)).is_empty());
    assert_eq!(PollDecision::Direct, s.begin_poll(&task, 3).decision);
    assert!(woken(s.finish_ready(&task, None, 4)).is_empty());
    assert!(woken(s.cancel(&task, 5)).is_empty());
    assert!(!s.stats().classes.contains_key(&101));
    assert_eq!(0, counters(&s, 0).tasks);
}

#[test]
fn unknown_classes_have_weight_one() {
    let mut s = builder(1).build();
    assert_eq!(1_000, s.soft_cpu_limit_millicores(class(8)));
    assert!(!s.stats().classes.contains_key(&8));
    let task = s.schedule_in(class(8), 0);
    assert_eq!(class(8), task.class());
    assert_eq!(1, counters(&s, 8).weight);
    assert_eq!(1, counters(&s, 8).tasks);
    let _ = s.set_weight(class(9), 4, 0);
    assert_eq!(4, counters(&s, 9).weight);
    assert_eq!(4_000, s.soft_cpu_limit_millicores(class(9)));
}

#[test]
fn listed_weights_change_and_others_stay() {
    let mut s = builder(1).weight(class(1), 2).weight(class(2), 5).weight(class(3), 6).build();
    let weights = vec![(class(1), 3), (class(3), 8), (class(1), 4)];
    assert!(woken(s.set_weights(&weights, 0)).is_empty());
    assert_eq!(4, counters(&s, 1).weight);
    assert_eq!(4_000, s.soft_cpu_limit_millicores(class(1)));
    assert_eq!(5, counters(&s, 2).weight);
    assert_eq!(8, counters(&s, 3).weight);
    assert!(woken(s.set_weights(&Vec::new(), 0)).is_empty());
    assert_eq!(4, counters(&s, 1).weight);
}

#[test]
fn new_entitlement_starts_over_at_the_lowest_pass() {
    let mut s = builder(1).weight(class(1), 1).weight(class(2), 1).build();
    let first = s.schedule_in(class(1), 0);
    let second = [s.schedule_in(class(2), 0), s.schedule_in(class(2), 0)];
    ask(&mut s, &second[0], 0);
    ask(&mut s, &second[1], 0);
    ask(&mut s, &first, 0);
    // Class two has run for long, and it would be the turn of class one.
    enter(&mut s, &second[0], 1);
    let proxy = second[0].proxy_waker().unwrap();
    let _ = s.notify(proxy, 1);
    assert_eq!(vec![id(&first)], woken(s.finish_pending(&second[0], Some(1_000_000), 2)));
    enter(&mut s, &first, 2);
    let proxy = first.proxy_waker().unwrap();
    let _ = s.notify(proxy, 2);
    // The default class has the lowest pass: zero.
    assert!(woken(s.set_weight(class(2), 1, 3)).is_empty());
    assert_eq!(vec![id(&second[1])], woken(s.finish_pending(&first, Some(10), 4)));
}

#[test]
fn soft_limits_are_set_at_run_time() {
    let mut s = builder(1).weight(class(1), 2).build();
    let limit = SoftCpuLimit::from_millicores(250).unwrap();
    assert!(woken(s.set_soft_cpu_limit(class(1), limit, 0)).is_empty());
    assert_eq!(0, counters(&s, 1).weight);
    assert_eq!(250, s.soft_cpu_limit_millicores(class(1)));
}

#[test]
fn parallelism_gives_the_slots() {
    assert_eq!(6, Scheduler::builder(Some(6)).build().stats().max_concurrent_polls);
    assert_eq!(1, Scheduler::builder(None).build().stats().max_concurrent_polls);
    let stats = Scheduler::builder(None).build().stats();
    assert_eq!(0, stats.active_polls);
    assert_eq!(1, stats.classes.len());
    assert_eq!(1, stats.classes[&0].weight);
}

#[test]
fn spawner_wraps_in_its_class() {
    let mut s = builder(1).build();
    let spawner = s.spawner(class(6));
    assert_eq!(class(6), spawner.class());
    let task = spawner.schedule(&mut s, 0);
    assert_eq!(class(6), task.class());
    assert_eq!(1, counters(&s, 6).tasks);
    assert!(s.can_schedule());
    assert!(s.can_begin_poll(&task));
    assert!(s.can_notify(task.proxy_waker().unwrap()));
    assert!(s.can_finish_pending(&task));
    assert_eq!(vec![0], ask(&mut s, &task, 1));
}

#[test]
fn leftovers_of_cancelled_tasks_are_skipped() {
    let mut s = builder(1).build();
    let holder = s.schedule(0);
    ask(&mut s, &holder, 0);
    let tasks: Vec<Scheduled> = (0..6).map(|_| s.schedule(0)).collect();
    for task in &tasks {
        ask(&mut s, task, 1);
    }
    for i in [0, 1, 3] {
        assert!(woken(s.cancel(&tasks[i], 2)).is_empty());
    }
    assert_eq!(3, counters(&s, 0).queued);
    assert_eq!(vec![id(&tasks[2])], woken(s.cancel(&holder, 3)));
    assert_eq!(vec![id(&tasks[4])], woken(s.cancel(&tasks[2], 4)));
    assert!(woken(s.cancel(&tasks[5], 5)).is_empty());
    assert_eq!(0, counters(&s, 0).queued);
    assert!(woken(s.cancel(&tasks[4], 6)).is_empty());
    assert_eq!(0, s.stats().active_polls);
}

#[test]
fn polls_come_in_rounds_of_the_weights() {
    let mut s = builder(1).weight(class(1), 3).weight(class(2), 7).build();
    let tasks: Vec<Scheduled> = (0..4).map(|i| s.schedule_in(class(1 + i % 2), 0)).collect();
    let mut admitted = Vec::new();
    for task in &tasks {
        admitted.extend(ask(&mut s, task, 0));
    }
    for _ in 0..3 {
        let mut order = Vec::new();
        for _ in 0..10 {
            let task = &tasks[admitted.pop().unwrap() as usize];
            order.push(task.class().id());
            admitted.extend(spin(&mut s, task, 21, 0));
        }
        assert_eq!(vec![1, 2, 2, 2, 1, 2, 2, 1, 2, 2], order);
    }
    assert_eq!(9 * 21, counters(&s, 1).total_exec_time);
    assert_eq!(21 * 21, counters(&s, 2).total_exec_time);
}

#[test]
fn live_tasks_are_in_one_place() {
    let mut s = builder(2).build();
    let tasks: Vec<Scheduled> = (0..9).map(|i| s.schedule_in(class(i % 3), 0)).collect();
    for task in &tasks[..7] {
        ask(&mut s, task, 0);
    }
    enter(&mut s, &tasks[0], 1);
    let _ = s.finish_ready(&tasks[0], Some(1), 2);
    let _ = s.cancel(&tasks[6], 3);
    let stats = s.stats();
    let queued: usize = stats.classes.values().map(|class| class.queued).sum();
    let live: u64 = stats
        .classes
        .values()
        .map(|class| class.tasks - class.completed - class.cancelled)
        .sum();
    assert_eq!((3, 2, 7), (queued, stats.active_polls, live));
    for class in stats.classes.values() {
        assert!(class.queued as u64 <= class.tasks - class.completed - class.cancelled);
        assert!(class.completed <= class.polls);
    }
}

#[test]
fn polling_a_waiting_task_again_changes_nothing() {
    let mut s = builder(1).build();
    let holder = s.schedule(0);
    let waiting = s.schedule(0);
    ask(&mut s, &holder, 0);
    ask(&mut s, &waiting, 1);
    let before = s.stats();
    assert!(ask(&mut s, &waiting, 2).is_empty());
    assert_eq!(before, s.stats());
    assert_eq!(vec![1], woken(s.cancel(&holder, 3)));
}

#[test]
fn empty_snapshot_lists_nothing() {
    let stats = SchedulerStats::default();
    assert_eq!(0, stats.max_concurrent_polls);
    assert_eq!(0, stats.active_polls);
    assert!(stats.classes.is_empty());
    assert_ne!(stats, builder(1).build().stats());
}

#[test]
fn latest_waker_is_kept() {
    let mut wakers: Wakers<&str> = Wakers::new();
    assert_eq!(None, wakers.register(4, "first", false));
    assert_eq!(Some("again"), wakers.register(4, "again", true));
    assert_eq!(Some(&"first"), wakers.get(4));
    assert_eq!(Some("first"), wakers.register(4, "second", false));
    assert_eq!(None, wakers.register(6, "other", true));
    let mut batch = WakeBatch::new();
    for task in [6, 5, 4] {
        batch.push(task);
    }
    assert_eq!(vec![&"other", &"second"], wakers.of(batch));
    assert_eq!(Some("second"), wakers.remove(4));
    assert_eq!(None, wakers.remove(4));
    assert_eq!(None, wakers.get(4));
}

#[test]
fn wakers_stay_in_step() {
    let mut s = builder(1).build();
    let mut wakers: Wakers<&str> = Wakers::new();
    let holder = s.schedule(0);
    let waiting = s.schedule(0);
    let polled = holder.poll(&mut s, &mut wakers, "holder", false, 0);
    assert_eq!(PollDecision::Wait, polled.decision);
    assert_eq!(None, polled.dropped);
    assert_eq!(vec![&"holder"], wakers.of(polled.wakes));
    assert_eq!(PollDecision::Wait, waiting.poll(&mut s, &mut wakers, "early", false, 1).decision);
    let before = s.stats();
    let polled = waiting.poll(&mut s, &mut wakers, "late", false, 2);
    assert_eq!(PollDecision::Wait, polled.decision);
    assert_eq!(Some("early"), polled.dropped);
    assert!(polled.wakes.into_tasks().is_empty());
    assert_eq!(before, s.stats());
    let polled = holder.poll(&mut s, &mut wakers, "again", true, 3);
    assert_eq!(PollDecision::Managed, polled.decision);
    assert_eq!(Some("again"), polled.dropped);
    let ended = holder.finish(&mut s, &mut wakers, true, Some(5), 4);
    assert_eq!(Some("holder"), ended.dropped);
    assert_eq!(vec![&"late"], wakers.of(ended.wakes));
    assert_eq!(None, wakers.get(0));
    let polled = waiting.poll(&mut s, &mut wakers, "late", true, 5);
    assert_eq!(PollDecision::Managed, polled.decision);
    let ended = waiting.finish(&mut s, &mut wakers, false, Some(5), 6);
    assert_eq!(None, ended.dropped);
    assert_eq!(Some(&"late"), wakers.get(1));
    let ended = waiting.abandon(&mut s, &mut wakers, 7);
    assert_eq!(Some("late"), ended.dropped);
    assert!(ended.wakes.into_tasks().is_empty());
    assert_eq!(1, counters(&s, 0).completed);
    assert_eq!(1, counters(&s, 0).cancelled);
}

#[test]
fn unknown_futures_leave_no_waker() {
    let mut s = builder(1).build();
    let mut wakers: Wakers<&str> = Wakers::new();
    let _ = s.set_enabled(false);
    assert!(s.can_schedule());
    let task = s.schedule(0);
    let polled = task.poll(&mut s, &mut wakers, "own", false, 0);
    assert_eq!(PollDecision::Direct, polled.decision);
    assert_eq!(Some("own"), polled.dropped);
    let ended = task.finish(&mut s, &mut wakers, false, None, 1);
    assert_eq!(None, ended.dropped);
    let ended = task.abandon(&mut s, &mut wakers, 2);
    assert_eq!(None, ended.dropped);
    assert!(ended.wakes.into_tasks().is_empty());
}

#[test]
fn spawner_registers_nothing_by_itself() {
    let mut s = builder(1).build();
    let mut other = builder(1).build();
    let before = s.stats();
    let spawner = s.spawner(class(12));
    assert_eq!(before, s.stats());
    let _ = spawner.schedule(&mut s, 3);
    let _ = other.schedule_in(class(12), 3);
    assert_eq!(other.stats(), s.stats());
}
