//! The scheduler as it drives a Tokio runtime.
//!
//! The scheduler itself only decides. What stands around it here does what an
//! embedding does: it keeps the scheduler and the executor's wakers behind one
//! lock, reads the clock, and makes the wakes once the lock is released.

use std::collections::BTreeMap;
use std::future::Future;
use std::pin::Pin;
use std::sync::atomic::{AtomicBool, AtomicU64, Ordering};
use std::sync::{Arc, Mutex};
use std::task::{Context, Poll, Wake, Waker};
use std::time::{Duration, Instant};

use tokio::task::JoinHandle;

use catio::{
    ClassStats, PollDecision, ProxyWaker, Scheduled as Handle, Scheduler as Core,
    SchedulerBuilder as Builder, SoftCpuLimit, Spawner as ClassHandle, TaskClass, WakeBatch, Wakers,
};

struct State {
    core: Core,
    wakers: Wakers<Waker>,
}

struct Shared {
    state: Mutex<State>,
    epoch: Instant,
}

impl Shared {
    fn step<R>(&self, f: impl FnOnce(&mut State, u64) -> (R, WakeBatch)) -> R {
        let (result, wakers) = {
            let mut state = self.state.lock().unwrap();
            let now = self.epoch.elapsed().as_nanos() as u64;
            let (result, batch) = f(&mut state, now);
            let wakers: Vec<Waker> = state.wakers.of(batch).into_iter().cloned().collect();
            (result, wakers)
        };
        for waker in wakers {
            waker.wake();
        }
        result
    }
}

struct SchedulerBuilder {
    builder: Builder,
}

impl SchedulerBuilder {
    fn max_concurrent_polls(self, limit: usize) -> Self {
        Self { builder: self.builder.max_concurrent_polls(limit) }
    }

    fn weight(self, class: TaskClass, weight: u32) -> Self {
        Self { builder: self.builder.weight(class, weight) }
    }

    fn soft_cpu_limit(self, class: TaskClass, limit: SoftCpuLimit) -> Self {
        Self { builder: self.builder.soft_cpu_limit(class, limit) }
    }

    fn build(self) -> Scheduler {
        let state = State { core: self.builder.build(), wakers: Wakers::new() };
        let shared = Shared { state: Mutex::new(state), epoch: Instant::now() };
        Scheduler { shared: Arc::new(shared) }
    }
}

struct Stats {
    active_polls: usize,
    classes: BTreeMap<TaskClass, ClassStats>,
}

#[derive(Clone)]
struct Scheduler {
    shared: Arc<Shared>,
}

impl Scheduler {
    fn builder() -> SchedulerBuilder {
        SchedulerBuilder { builder: Core::builder(Some(4)) }
    }

    fn schedule<F: Future>(&self, future: F) -> Scheduled<F> {
        let handle = self.shared.step(|state, now| (state.core.schedule(now), WakeBatch::new()));
        Scheduled::new(self, handle, future)
    }

    fn schedule_in<F: Future>(&self, class: TaskClass, future: F) -> Scheduled<F> {
        let handle = self
            .shared
            .step(|state, now| (state.core.schedule_in(class, now), WakeBatch::new()));
        Scheduled::new(self, handle, future)
    }

    fn spawn<F>(&self, future: F) -> JoinHandle<F::Output>
    where
        F: Future + Send + 'static,
        F::Output: Send + 'static,
    {
        tokio::spawn(self.schedule(future))
    }

    fn spawn_in<F>(&self, class: TaskClass, future: F) -> JoinHandle<F::Output>
    where
        F: Future + Send + 'static,
        F::Output: Send + 'static,
    {
        tokio::spawn(self.schedule_in(class, future))
    }

    fn spawn_on<F>(&self, handle: &tokio::runtime::Handle, future: F) -> JoinHandle<F::Output>
    where
        F: Future + Send + 'static,
        F::Output: Send + 'static,
    {
        handle.spawn(self.schedule(future))
    }

    fn spawn_in_on<F>(
        &self,
        handle: &tokio::runtime::Handle,
        class: TaskClass,
        future: F,
    ) -> JoinHandle<F::Output>
    where
        F: Future + Send + 'static,
        F::Output: Send + 'static,
    {
        handle.spawn(self.schedule_in(class, future))
    }

    fn spawn_local<F>(&self, future: F) -> JoinHandle<F::Output>
    where
        F: Future + 'static,
        F::Output: 'static,
    {
        tokio::task::spawn_local(self.schedule(future))
    }

    fn spawn_local_in<F>(&self, class: TaskClass, future: F) -> JoinHandle<F::Output>
    where
        F: Future + 'static,
        F::Output: 'static,
    {
        tokio::task::spawn_local(self.schedule_in(class, future))
    }

    fn spawner(&self, class: TaskClass) -> Spawner {
        let handle = self
            .shared
            .step(|state, _| (state.core.spawner(class), WakeBatch::new()));
        Spawner { scheduler: self.clone(), handle }
    }

    fn stats(&self) -> Stats {
        let stats = self.shared.step(|state, _| (state.core.stats(), WakeBatch::new()));
        Stats {
            active_polls: stats.active_polls,
            classes: stats
                .classes
                .iter()
                .map(|(class, stats)| (TaskClass::new(*class), *stats))
                .collect(),
        }
    }

    fn set_weight(&self, class: TaskClass, weight: u32) {
        self.shared
            .step(|state, now| ((), state.core.set_weight(class, weight, now)));
    }

    fn set_weights(&self, weights: Vec<(TaskClass, u32)>) {
        self.shared
            .step(|state, now| ((), state.core.set_weights(&weights, now)));
    }

    fn set_soft_cpu_limit(&self, class: TaskClass, limit: SoftCpuLimit) {
        self.shared
            .step(|state, now| ((), state.core.set_soft_cpu_limit(class, limit, now)));
    }

    fn soft_cpu_limit_millicores(&self, class: TaskClass) -> u64 {
        self.shared
            .step(|state, _| (state.core.soft_cpu_limit_millicores(class), WakeBatch::new()))
    }

    fn set_max_concurrent_polls(&self, limit: usize) {
        self.shared
            .step(|state, now| ((), state.core.set_max_concurrent_polls(limit, now)));
    }

    fn set_enabled(&self, enabled: bool) {
        self.shared
            .step(|state, _| ((), state.core.set_enabled(enabled)));
    }

    fn is_enabled(&self) -> bool {
        self.shared
            .step(|state, _| (state.core.is_enabled(), WakeBatch::new()))
    }
}

struct Spawner {
    scheduler: Scheduler,
    handle: ClassHandle,
}

impl Spawner {
    fn schedule<F: Future>(&self, future: F) -> Scheduled<F> {
        let handle = self
            .scheduler
            .shared
            .step(|state, now| (self.handle.schedule(&mut state.core, now), WakeBatch::new()));
        Scheduled::new(&self.scheduler, handle, future)
    }

    fn spawn<F>(&self, future: F) -> JoinHandle<F::Output>
    where
        F: Future + Send + 'static,
        F::Output: Send + 'static,
    {
        tokio::spawn(self.schedule(future))
    }

    fn spawn_on<F>(&self, handle: &tokio::runtime::Handle, future: F) -> JoinHandle<F::Output>
    where
        F: Future + Send + 'static,
        F::Output: Send + 'static,
    {
        handle.spawn(self.schedule(future))
    }
}

struct Proxy {
    shared: Arc<Shared>,
    proxy: ProxyWaker,
}

impl Wake for Proxy {
    fn wake(self: Arc<Self>) {
        self.wake_by_ref();
    }

    fn wake_by_ref(self: &Arc<Self>) {
        self.shared
            .step(|state, now| ((), state.core.notify(self.proxy, now)));
    }
}

struct Scheduled<F: Future> {
    future: Pin<Box<F>>,
    handle: Handle,
    shared: Arc<Shared>,
    returned: bool,
}

impl<F: Future> Scheduled<F> {
    fn new(scheduler: &Scheduler, handle: Handle, future: F) -> Self {
        Self {
            future: Box::pin(future),
            handle,
            shared: scheduler.shared.clone(),
            returned: false,
        }
    }
}

impl<F: Future> Future for Scheduled<F> {
    type Output = F::Output;

    fn poll(self: Pin<&mut Self>, cx: &mut Context<'_>) -> Poll<Self::Output> {
        let this = self.get_mut();
        let handle = &this.handle;
        let (decision, _dropped) = this.shared.step(|state, now| {
            let same = handle
                .task()
                .and_then(|task| state.wakers.get(task))
                .is_some_and(|current| current.will_wake(cx.waker()));
            let State { core, wakers } = state;
            let polled = handle.poll(core, wakers, cx.waker().clone(), same, now);
            ((polled.decision, polled.dropped), polled.wakes)
        });
        let (polled, exec_time) = match decision {
            PollDecision::Wait => return Poll::Pending,
            PollDecision::Managed => {
                let proxy = Waker::from(Arc::new(Proxy {
                    shared: this.shared.clone(),
                    proxy: handle.proxy_waker().unwrap(),
                }));
                let started = Instant::now();
                let polled = this.future.as_mut().poll(&mut Context::from_waker(&proxy));
                (polled, Some(started.elapsed().as_nanos() as u64))
            }
            PollDecision::Direct => (this.future.as_mut().poll(cx), None),
        };
        let ready = polled.is_ready();
        this.returned = ready;
        let _dropped = this.shared.step(|state, now| {
            let State { core, wakers } = state;
            let ended = handle.finish(core, wakers, ready, exec_time, now);
            (ended.dropped, ended.wakes)
        });
        polled
    }
}

impl<F: Future> Drop for Scheduled<F> {
    fn drop(&mut self) {
        if !self.returned {
            let handle = &self.handle;
            let _dropped = self.shared.step(|state, now| {
                let ended = handle.abandon(&mut state.core, &mut state.wakers, now);
                (ended.dropped, ended.wakes)
            });
        }
    }
}

fn run<F: Future>(worker_threads: usize, test: F) -> F::Output {
    tokio::runtime::Builder::new_multi_thread()
        .worker_threads(worker_threads)
        .enable_time()
        .build()
        .unwrap()
        .block_on(test)
}

fn seconds(nanos: u128) -> f64 {
    nanos as f64 / 1e9
}

fn stats_after(scheduler: &Scheduler, class: TaskClass) -> ClassStats {
    scheduler
        .stats()
        .classes
        .get(&class)
        .cloned()
        .unwrap_or_default()
}

fn class_a() -> TaskClass {
    TaskClass::new(1)
}

fn class_b() -> TaskClass {
    TaskClass::new(2)
}

fn class_c() -> TaskClass {
    TaskClass::new(3)
}

fn class_query() -> TaskClass {
    TaskClass::new(1)
}

fn class_write() -> TaskClass {
    TaskClass::new(2)
}

struct ReentrantSpawnWaker {
    scheduler: Scheduler,
    called: Arc<AtomicBool>,
}

impl std::task::Wake for ReentrantSpawnWaker {
    fn wake(self: Arc<Self>) {
        self.called.store(true, Ordering::Release);
        drop(self.scheduler.spawn(async {}));
    }
}

#[test]
fn disabling_wakes_reentrantly_without_holding_switch_lock() {
    run(2, async {
        let scheduler = Scheduler::builder().max_concurrent_polls(1).build();
        let noop = Waker::from(Arc::new(NoopWaker));
        let mut blocker = Box::pin(scheduler.schedule(std::future::pending::<()>()));
        let mut cx = Context::from_waker(&noop);
        assert!(matches!(blocker.as_mut().poll(&mut cx), Poll::Pending));

        let called = Arc::new(AtomicBool::new(false));
        let reentrant = Waker::from(Arc::new(ReentrantSpawnWaker {
            scheduler: scheduler.clone(),
            called: called.clone(),
        }));
        let mut queued = Box::pin(scheduler.schedule(std::future::pending::<()>()));
        let mut queued_cx = Context::from_waker(&reentrant);
        assert!(matches!(
            queued.as_mut().poll(&mut queued_cx),
            Poll::Pending
        ));

        tokio::time::timeout(
            Duration::from_secs(2),
            tokio::task::spawn_blocking(move || scheduler.set_enabled(false)),
        )
        .await
        .expect("disable must not deadlock in a reentrant waker")
        .expect("disable task must complete");
        assert!(called.load(Ordering::Acquire));
    });
}

struct NoopWaker;

impl std::task::Wake for NoopWaker {
    fn wake(self: Arc<Self>) {}
}

#[test]
fn disabled_spawns_bypass_scheduler_and_reenable_restores_admission() {
    run(2, async {
        let scheduler = Scheduler::builder().max_concurrent_polls(1).build();
        scheduler.set_enabled(false);
        assert!(!scheduler.is_enabled());
        let spawner = scheduler.spawner(class_a());
        let direct = spawner.spawn(async { 7_u32 });
        assert_eq!(7, direct.await.unwrap());
        let stats = scheduler.stats();
        assert_eq!(0, stats.classes[&TaskClass::default()].tasks);
        assert!(!stats.classes.contains_key(&class_a()));

        scheduler.set_enabled(true);
        assert!(scheduler.is_enabled());
        let managed = scheduler.spawn_in(class_a(), async {});
        managed.await.unwrap();
        let stats = scheduler.stats();
        assert_eq!(1, stats.classes[&class_a()].tasks);
        assert_eq!(1, stats.classes[&class_a()].admitted);
    });
}

#[test]
fn disabling_drains_queued_tasks_without_hanging() {
    run(2, async {
        let scheduler = Scheduler::builder().max_concurrent_polls(1).build();
        let release = Arc::new(AtomicBool::new(false));
        let blocker_started = Arc::new(AtomicBool::new(false));
        let blocker = scheduler.spawn(BlockingPoll {
            started: blocker_started.clone(),
            release: release.clone(),
        });
        tokio::time::timeout(Duration::from_secs(2), async {
            while !blocker_started.load(Ordering::Acquire) {
                tokio::task::yield_now().await;
            }
        })
        .await
        .expect("blocker must hold the admission slot");
        let tasks = (0..32)
            .map(|_| scheduler.spawn(async {}))
            .collect::<Vec<_>>();
        // The blocker owns the only admission slot. Wait for the scheduler
        // counters, rather than relying on a timing-sensitive executor yield, so
        // disable is known to drain actual queued work.
        tokio::time::timeout(Duration::from_secs(2), async {
            loop {
                let stats = scheduler.stats();
                if stats.active_polls == 1 && stats.classes[&TaskClass::default()].queued > 0 {
                    break;
                }
                tokio::time::sleep(Duration::from_millis(1)).await;
            }
        })
        .await
        .expect("queued work must be admitted before disable");
        scheduler.set_enabled(false);
        release.store(true, Ordering::Release);
        blocker.await.unwrap();
        tokio::time::timeout(Duration::from_secs(2), async {
            for task in tasks {
                task.await.unwrap();
            }
        })
        .await
        .expect("disabling scheduler must drain queued tasks");
        assert_eq!(0, scheduler.stats().active_polls);
    });
}

#[test]
fn pre_disable_wrapper_stays_bypassed_after_immediate_reenable() {
    run(2, async {
        let scheduler = Scheduler::builder().max_concurrent_polls(1).build();
        let polls = Arc::new(AtomicU64::new(0));
        let captured = Arc::new(Mutex::new(None));
        let old = scheduler.spawn(CaptureThenReady {
            polls: polls.clone(),
            captured: captured.clone(),
        });
        // The captured inner waker is the precise completion signal for the first poll.
        tokio::time::timeout(Duration::from_secs(2), async {
            while captured.lock().unwrap().is_none() {
                tokio::time::sleep(Duration::from_millis(1)).await;
            }
        })
        .await
        .expect("pre-disable wrapper must become pending");
        let admitted_before = scheduler.stats().classes[&TaskClass::default()].admitted;
        scheduler.set_enabled(false);
        captured.lock().unwrap().take().unwrap().wake();
        scheduler.set_enabled(true);
        old.await.unwrap();
        assert_eq!(2, polls.load(Ordering::SeqCst));
        assert_eq!(
            admitted_before,
            scheduler.stats().classes[&TaskClass::default()].admitted
        );

        let managed = scheduler.spawn(async {});
        managed.await.unwrap();
        assert_eq!(
            admitted_before + 1,
            scheduler.stats().classes[&TaskClass::default()].admitted,
            "post-enable work must be scheduler-managed"
        );
    });
}

#[test]
fn bypassed_panic_does_not_release_another_tasks_admission() {
    run(2, async {
        let scheduler = Scheduler::builder().max_concurrent_polls(1).build();
        let holder_release = Arc::new(AtomicBool::new(false));
        let holder_started = Arc::new(AtomicBool::new(false));
        let holder = scheduler.spawn(BlockingPoll {
            started: holder_started.clone(),
            release: holder_release.clone(),
        });
        tokio::time::timeout(Duration::from_secs(2), async {
            while !holder_started.load(Ordering::Acquire) {
                tokio::task::yield_now().await;
            }
        })
        .await
        .expect("holder must own the only admission slot");

        // This wrapper is queued while enabled, then drained into sticky direct
        // mode. Re-enable before Tokio gets to poll it so the panic is observed in
        // the direct path.
        let bypassed = scheduler.spawn(PanicOnPoll);
        wait_for_default_queue(&scheduler, 1).await;
        scheduler.set_enabled(false);
        scheduler.set_enabled(true);

        let waiting = scheduler.spawn(async { 9_u8 });
        let panic_error = tokio::time::timeout(Duration::from_secs(2), bypassed)
            .await
            .expect("bypassed panic must be observed")
            .expect_err("intentional direct panic must produce JoinError");
        assert!(panic_error.is_panic());

        let stats = scheduler.stats();
        assert_eq!(1, stats.active_polls);
        assert_eq!(1, stats.classes[&TaskClass::default()].queued);

        holder_release.store(true, Ordering::Release);
        holder.await.unwrap();
        assert_eq!(9, waiting.await.unwrap());
        assert_eq!(0, scheduler.stats().active_polls);
    });
}

#[test]
fn cancelling_queued_work_reclaims_no_longer_owned_admission() {
    run(2, async {
        let scheduler = Scheduler::builder().max_concurrent_polls(1).build();
        let release = Arc::new(AtomicBool::new(false));
        let started = Arc::new(AtomicBool::new(false));
        let blocker = scheduler.spawn(BlockingPoll {
            started: started.clone(),
            release: release.clone(),
        });
        tokio::time::timeout(Duration::from_secs(2), async {
            while !started.load(Ordering::Acquire) {
                tokio::task::yield_now().await;
            }
        })
        .await
        .expect("blocker must hold the only admission slot");

        let cancelled = scheduler.spawn(std::future::pending::<()>());
        let waiting = scheduler.spawn(async { 11_u8 });
        wait_for_default_queue(&scheduler, 2).await;
        let before_cancel = scheduler.stats();
        assert_eq!(1, before_cancel.active_polls);
        assert_eq!(2, before_cancel.classes[&TaskClass::default()].queued);
        assert!(
            !waiting.is_finished(),
            "waiting work completed before cancellation"
        );

        cancelled.abort();
        assert!(cancelled.await.unwrap_err().is_cancelled());

        let after_cancel = scheduler.stats();
        assert_eq!(1, after_cancel.active_polls);
        assert_eq!(1, after_cancel.classes[&TaskClass::default()].queued);
        assert_eq!(
            before_cancel.classes[&TaskClass::default()].admitted,
            after_cancel.classes[&TaskClass::default()].admitted,
            "cancelling queued work must not release the blocker's slot"
        );
        assert!(
            !waiting.is_finished(),
            "waiting work completed before blocker release"
        );

        release.store(true, Ordering::Release);
        blocker.await.unwrap();
        assert_eq!(
            11,
            tokio::time::timeout(Duration::from_secs(2), waiting)
                .await
                .expect("queued work must proceed after cancellation")
                .unwrap()
        );
        assert_eq!(0, scheduler.stats().active_polls);
    });
}

#[test]
fn managed_panic_releases_admission_for_queued_work() {
    run(2, async {
        let scheduler = Scheduler::builder().max_concurrent_polls(1).build();
        let release = Arc::new(AtomicBool::new(false));
        let started = Arc::new(AtomicBool::new(false));
        let blocker = scheduler.spawn(BlockingPoll {
            started: started.clone(),
            release: release.clone(),
        });
        tokio::time::timeout(Duration::from_secs(2), async {
            while !started.load(Ordering::Acquire) {
                tokio::task::yield_now().await;
            }
        })
        .await
        .expect("blocker must hold the only admission slot");

        let panicking = scheduler.spawn(ManagedPanicOnPoll);
        let waiting = scheduler.spawn(async { 13_u8 });
        wait_for_default_queue(&scheduler, 2).await;
        release.store(true, Ordering::Release);
        blocker.await.unwrap();

        let panic_error = tokio::time::timeout(Duration::from_secs(2), panicking)
            .await
            .expect("managed panic must be observed")
            .expect_err("intentional managed panic must produce JoinError");
        assert!(panic_error.is_panic());
        assert_eq!(
            13,
            tokio::time::timeout(Duration::from_secs(2), waiting)
                .await
                .expect("queued work must proceed after panic")
                .unwrap()
        );
        assert_eq!(0, scheduler.stats().active_polls);
    });
}

#[test]
fn aborting_work_after_disable_reclaims_slots_for_post_enable_work() {
    run(2, async {
        let scheduler = Scheduler::builder().max_concurrent_polls(1).build();
        let release = Arc::new(tokio::sync::Notify::new());
        let started = Arc::new(tokio::sync::Notify::new());
        let blocker = scheduler.spawn({
            let release = release.clone();
            let started = started.clone();
            async move {
                started.notify_one();
                release.notified().await;
            }
        });
        tokio::time::timeout(Duration::from_secs(2), started.notified())
            .await
            .expect("blocker must start");
        let queued = (0..32)
            .map(|_| {
                scheduler.spawn(FiniteSelfWaking {
                    remaining: usize::MAX,
                })
            })
            .collect::<Vec<_>>();
        // One task may already own the sole slot, so the maximum queued backlog
        // is one less than the number submitted. Waiting for the full submission
        // count would make this cancellation regression impossible to observe.
        wait_for_default_queue(&scheduler, queued.len() - 1).await;
        scheduler.set_enabled(false);
        release.notify_one();
        blocker.await.unwrap();
        for task in &queued {
            task.abort();
        }
        for task in queued {
            assert!(task.await.unwrap_err().is_cancelled());
        }
        assert_eq!(0, scheduler.stats().active_polls);

        scheduler.set_enabled(true);
        tokio::time::timeout(Duration::from_secs(2), scheduler.spawn(async { 9_u8 }))
            .await
            .expect("post-enable task must not be blocked by cancelled work")
            .unwrap();
        assert_eq!(0, scheduler.stats().active_polls);
    });
}

#[test]
fn self_waking_poll_racing_disable_completes_without_panic() {
    run(2, async {
        let scheduler = Scheduler::builder().max_concurrent_polls(1).build();
        let started = Arc::new(tokio::sync::Notify::new());
        let release = Arc::new(AtomicBool::new(false));
        let polls = Arc::new(AtomicU64::new(0));
        let task = scheduler.spawn(DisableWhilePolling {
            started: started.clone(),
            release: release.clone(),
            polls: polls.clone(),
        });
        tokio::time::timeout(Duration::from_secs(2), started.notified())
            .await
            .expect("self-waking task must enter its poll");
        scheduler.set_enabled(false);
        release.store(true, Ordering::Release);
        tokio::time::timeout(Duration::from_secs(2), task)
            .await
            .expect("disabled self-waking task must complete")
            .unwrap();
        assert!(polls.load(Ordering::SeqCst) >= 2);
        assert_eq!(0, scheduler.stats().active_polls);
    });
}

#[test]
fn disabled_scheduler_spawn_apis_bypass_unknown_classes() {
    run(2, async {
        let scheduler = Scheduler::builder().build();
        let runtime = tokio::runtime::Handle::current();
        let classes = [
            TaskClass::new(101),
            TaskClass::new(102),
            TaskClass::new(103),
            TaskClass::new(104),
            TaskClass::new(105),
            TaskClass::new(106),
            TaskClass::new(107),
        ];
        scheduler.set_enabled(false);
        let spawner = scheduler.spawner(classes[4]);
        let handles = vec![
            scheduler.spawn(async {}),
            scheduler.spawn_in(classes[0], async {}),
            scheduler.spawn_on(&runtime, async {}),
            scheduler.spawn_in_on(&runtime, classes[1], async {}),
            spawner.spawn(async {}),
            spawner.spawn_on(&runtime, async {}),
        ];
        for handle in handles {
            handle.await.unwrap();
        }
        let local = tokio::task::LocalSet::new();
        local
            .run_until(async {
                let local_default = scheduler.spawn_local(async {});
                let local_class = scheduler.spawn_local_in(classes[5], async {});
                local_default.await.unwrap();
                local_class.await.unwrap();
            })
            .await;
        let stats = scheduler.stats();
        assert_eq!(0, stats.classes[&TaskClass::default()].tasks);
        for class in classes {
            assert!(
                !stats.classes.contains_key(&class),
                "disabled API must not create scheduler state for class {}",
                    class.to_string()
            );
        }
        assert_eq!(0, stats.classes[&TaskClass::default()].admitted);
    });
}

#[test]
fn soft_cpu_limit_validates_fixed_point_millicores() {
    assert_eq!(None, SoftCpuLimit::from_millicores(0));
    assert_eq!(
        Some(500),
        SoftCpuLimit::from_millicores(500).map(SoftCpuLimit::millicores)
    );
    assert_eq!(
        Some(1_500),
        SoftCpuLimit::from_millicores(1_500).map(SoftCpuLimit::millicores)
    );
    assert_eq!(
        Some(2_000),
        SoftCpuLimit::from_cores(2).map(SoftCpuLimit::millicores)
    );
    assert_eq!(None, SoftCpuLimit::from_cores(0));
    assert_eq!(None, SoftCpuLimit::from_cores(u32::MAX / 1_000 + 1));
    let largest_cores = u32::MAX / 1_000;
    assert_eq!(
        Some(largest_cores * 1_000),
        SoftCpuLimit::from_cores(largest_cores).map(SoftCpuLimit::millicores)
    );
    assert_eq!(
        Some(u32::MAX),
        SoftCpuLimit::from_millicores(u32::MAX).map(SoftCpuLimit::millicores)
    );
}

#[test]
fn default_and_soft_class_entitlements_are_queryable_without_stats_breakage() {
    let scheduler = Scheduler::builder()
        .soft_cpu_limit(class_a(), SoftCpuLimit::from_millicores(500).unwrap())
        .build();
    assert_eq!(1_000, scheduler.soft_cpu_limit_millicores(class_b()));
    assert_eq!(1, scheduler.stats().classes[&TaskClass::default()].weight);
    assert_eq!(0, scheduler.stats().classes[&class_a()].weight);
    assert_eq!(500, scheduler.soft_cpu_limit_millicores(class_a()));
}

struct SaturatedWork {
    stop: Arc<AtomicBool>,
    polls: Arc<AtomicU64>,
}

impl Future for SaturatedWork {
    type Output = ();

    fn poll(self: Pin<&mut Self>, cx: &mut Context<'_>) -> Poll<Self::Output> {
        if self.stop.load(Ordering::Acquire) {
            return Poll::Ready(());
        }

        // Every poll performs the same CPU quantum. Keeping the quantum
        // cooperative makes poll admission a useful proxy for CPU share.
        for _ in 0..8_000 {
            std::hint::spin_loop();
        }
        self.polls.fetch_add(1, Ordering::Relaxed);
        cx.waker().wake_by_ref();
        Poll::Pending
    }
}

async fn wait_for_polls(polls: &[&AtomicU64], target: u64, message: &str) {
    tokio::time::timeout(Duration::from_secs(10), async {
        loop {
            if polls
                .iter()
                .map(|polls| polls.load(Ordering::Relaxed))
                .sum::<u64>()
                >= target
            {
                break;
            }
            tokio::time::sleep(Duration::from_millis(2)).await;
        }
    })
    .await
    .expect(message);
}

#[test]
fn dynamic_api_transitions_update_weight_sentinel_and_entitlement() {
    let scheduler = Scheduler::builder().weight(class_a(), 2).build();
    assert_eq!(2, scheduler.stats().classes[&class_a()].weight);
    assert_eq!(2_000, scheduler.soft_cpu_limit_millicores(class_a()));
    scheduler.set_soft_cpu_limit(class_a(), SoftCpuLimit::from_millicores(500).unwrap());
    assert_eq!(0, scheduler.stats().classes[&class_a()].weight);
    assert_eq!(500, scheduler.soft_cpu_limit_millicores(class_a()));
    scheduler.set_weight(class_a(), 3);
    assert_eq!(3, scheduler.stats().classes[&class_a()].weight);
    assert_eq!(3_000, scheduler.soft_cpu_limit_millicores(class_a()));
}

#[test]
fn saturated_runtime_keeps_a_30_b_70() {
    let runtime = tokio::runtime::Builder::new_multi_thread()
        .worker_threads(4)
        .enable_time()
        .build()
        .unwrap();

    runtime.block_on(async {
        let scheduler = Scheduler::builder()
            .max_concurrent_polls(4)
            .weight(class_a(), 3)
            .weight(class_b(), 7)
            .build();
        let stop = Arc::new(AtomicBool::new(false));
        let a_polls = Arc::new(AtomicU64::new(0));
        let b_polls = Arc::new(AtomicU64::new(0));
        let mut handles = Vec::new();

        // More runnable tasks than runtime workers keep both class queues
        // continuously backlogged.
        for _ in 0..32 {
            handles.push(scheduler.spawn_in(
                class_a(),
                SaturatedWork {
                    stop: stop.clone(),
                    polls: a_polls.clone(),
                },
            ));
            handles.push(scheduler.spawn_in(
                class_b(),
                SaturatedWork {
                    stop: stop.clone(),
                    polls: b_polls.clone(),
                },
            ));
        }

        tokio::time::timeout(Duration::from_secs(10), async {
            loop {
                let total = a_polls.load(Ordering::Relaxed) + b_polls.load(Ordering::Relaxed);
                if total >= 30_000 {
                    break;
                }
                tokio::time::sleep(Duration::from_millis(2)).await;
            }
        })
        .await
        .expect("saturated workload made no progress");

        let a_at_capacity = a_polls.load(Ordering::Relaxed);
        let b_at_capacity = b_polls.load(Ordering::Relaxed);

        stop.store(true, Ordering::Release);
        for handle in handles {
            handle.await.unwrap();
        }

        let stats = scheduler.stats();
        assert_eq!(0, stats.active_polls);
        assert_eq!(
            64,
            stats.classes[&class_a()].completed + stats.classes[&class_b()].completed
        );

        // Accounting is real execution time: A should hold ~30% of it.
        let a_exec = seconds(stats.classes[&class_a()].total_exec_time);
        let b_exec = seconds(stats.classes[&class_b()].total_exec_time);
        let a_share = a_exec / (a_exec + b_exec);
        assert!(
            (0.29..=0.31).contains(&a_share),
            "expected 30% A / 70% B by exec time, got A={a_at_capacity} polls ({a_exec:.3}s), \
             B={b_at_capacity} polls ({b_exec:.3}s), share={a_share}"
        );
    });
}

#[test]
fn saturated_soft_limits_keep_1_2_5_exec_time_shares() {
    let runtime = tokio::runtime::Builder::new_multi_thread()
        .worker_threads(4)
        .enable_time()
        .build()
        .unwrap();
    runtime.block_on(async {
        let scheduler = Scheduler::builder()
            .max_concurrent_polls(4)
            .soft_cpu_limit(class_a(), SoftCpuLimit::from_cores(1).unwrap())
            .soft_cpu_limit(class_b(), SoftCpuLimit::from_cores(2).unwrap())
            .soft_cpu_limit(class_c(), SoftCpuLimit::from_cores(5).unwrap())
            .build();
        let stop = Arc::new(AtomicBool::new(false));
        let polls = [
            Arc::new(AtomicU64::new(0)),
            Arc::new(AtomicU64::new(0)),
            Arc::new(AtomicU64::new(0)),
        ];
        let mut handles = Vec::new();
        for _ in 0..32 {
            for (class, class_polls) in [
                (class_a(), polls[0].clone()),
                (class_b(), polls[1].clone()),
                (class_c(), polls[2].clone()),
            ] {
                handles.push(scheduler.spawn_in(
                    class,
                    SaturatedWork {
                        stop: stop.clone(),
                        polls: class_polls,
                    },
                ));
            }
        }
        wait_for_polls(
            &[&polls[0], &polls[1], &polls[2]],
            30_000,
            "soft-limit workload made no progress",
        )
        .await;
        stop.store(true, Ordering::Release);
        for handle in handles {
            handle.await.unwrap();
        }
        let stats = scheduler.stats();
        let exec = [
            seconds(stats.classes[&class_a()].total_exec_time),
            seconds(stats.classes[&class_b()].total_exec_time),
            seconds(stats.classes[&class_c()].total_exec_time),
        ];
        let total: f64 = exec.iter().sum();
        for (actual, expected) in exec.into_iter().zip([0.125, 0.25, 0.625]) {
            assert!(
                (expected - 0.02..=expected + 0.02).contains(&(actual / total)),
                "expected {expected}, got {}",
                actual / total
            );
        }
    });
}

#[test]
fn fractional_soft_limits_keep_25_75_exec_time_shares() {
    let runtime = tokio::runtime::Builder::new_multi_thread()
        .worker_threads(4)
        .enable_time()
        .build()
        .unwrap();
    runtime.block_on(async {
        let scheduler = Scheduler::builder()
            .max_concurrent_polls(4)
            .soft_cpu_limit(class_a(), SoftCpuLimit::from_millicores(500).unwrap())
            .soft_cpu_limit(class_b(), SoftCpuLimit::from_millicores(1_500).unwrap())
            .build();
        let stop = Arc::new(AtomicBool::new(false));
        let a = Arc::new(AtomicU64::new(0));
        let b = Arc::new(AtomicU64::new(0));
        let mut handles = Vec::new();
        for _ in 0..32 {
            for (class, polls) in [(class_a(), a.clone()), (class_b(), b.clone())] {
                handles.push(scheduler.spawn_in(
                    class,
                    SaturatedWork {
                        stop: stop.clone(),
                        polls,
                    },
                ));
            }
        }
        wait_for_polls(&[&a, &b], 20_000, "fractional workload made no progress").await;
        stop.store(true, Ordering::Release);
        for handle in handles {
            handle.await.unwrap();
        }
        let stats = scheduler.stats();
        let a_exec = seconds(stats.classes[&class_a()].total_exec_time);
        let b_exec = seconds(stats.classes[&class_b()].total_exec_time);
        assert!((0.23..=0.27).contains(&(a_exec / (a_exec + b_exec))));
    });
}

#[test]
fn legacy_weight_and_two_core_soft_limit_split_exec_time_evenly() {
    let runtime = tokio::runtime::Builder::new_multi_thread()
        .worker_threads(4)
        .enable_time()
        .build()
        .unwrap();
    runtime.block_on(async {
        let scheduler = Scheduler::builder()
            .max_concurrent_polls(4)
            .weight(class_a(), 2)
            .soft_cpu_limit(class_b(), SoftCpuLimit::from_cores(2).unwrap())
            .build();
        assert_eq!(2, scheduler.stats().classes[&class_a()].weight);
        assert_eq!(0, scheduler.stats().classes[&class_b()].weight);
        assert_eq!(2_000, scheduler.soft_cpu_limit_millicores(class_a()));
        assert_eq!(2_000, scheduler.soft_cpu_limit_millicores(class_b()));
        let stop = Arc::new(AtomicBool::new(false));
        let a = Arc::new(AtomicU64::new(0));
        let b = Arc::new(AtomicU64::new(0));
        let mut handles = Vec::new();
        for _ in 0..32 {
            for (class, polls) in [(class_a(), a.clone()), (class_b(), b.clone())] {
                handles.push(scheduler.spawn_in(
                    class,
                    SaturatedWork {
                        stop: stop.clone(),
                        polls,
                    },
                ));
            }
        }
        wait_for_polls(&[&a, &b], 20_000, "mixed workload made no progress").await;
        stop.store(true, Ordering::Release);
        for handle in handles {
            handle.await.unwrap();
        }
        let stats = scheduler.stats();
        let a_exec = seconds(stats.classes[&class_a()].total_exec_time);
        let b_exec = seconds(stats.classes[&class_b()].total_exec_time);
        assert!((0.48..=0.52).contains(&(a_exec / (a_exec + b_exec))));
    });
}

struct FiniteSelfWaking {
    remaining: usize,
}

impl Future for FiniteSelfWaking {
    type Output = ();

    fn poll(mut self: Pin<&mut Self>, cx: &mut Context<'_>) -> Poll<Self::Output> {
        if self.remaining == 0 {
            return Poll::Ready(());
        }
        self.remaining -= 1;
        cx.waker().wake_by_ref();
        Poll::Pending
    }
}

#[test]
fn idle_classes_do_not_reserve_capacity() {
    run(2, async {
        let scheduler = Scheduler::builder()
            .max_concurrent_polls(2)
            .weight(class_a(), 3)
            .weight(class_b(), 7)
            .build();

        let handles = (0..16)
            .map(|_| scheduler.spawn_in(class_a(), FiniteSelfWaking { remaining: 1_000 }))
            .collect::<Vec<_>>();

        tokio::time::timeout(Duration::from_secs(5), async {
            for handle in handles {
                handle.await.unwrap();
            }
        })
        .await
        .expect("A should borrow all capacity while B is idle");

        let stats = scheduler.stats();
        // B never ran, so it must hold no exec time; A holds all of it (~100%).
        assert_eq!(
            0, stats.classes[&class_b()].polls,
            "B must not be admitted while idle"
        );
        assert!(
            stats.classes[&class_a()].total_exec_time > 0,
            "A should have accumulated exec time"
        );
        assert_eq!(
            0,
            stats.classes[&class_b()].total_exec_time,
            "idle B must not accumulate exec time"
        );
    });
}

#[test]
fn an_idle_class_rejoins_without_old_credit_or_debt() {
    run(4, async {
        let scheduler = Scheduler::builder()
            .max_concurrent_polls(4)
            .soft_cpu_limit(class_a(), SoftCpuLimit::from_cores(2).unwrap())
            .soft_cpu_limit(class_b(), SoftCpuLimit::from_cores(8).unwrap())
            .build();

        let first_stop = Arc::new(AtomicBool::new(false));
        let first_polls = Arc::new(AtomicU64::new(0));
        let first_handles = (0..32)
            .map(|_| {
                scheduler.spawn_in(
                    class_a(),
                    SaturatedWork {
                        stop: first_stop.clone(),
                        polls: first_polls.clone(),
                    },
                )
            })
            .collect::<Vec<_>>();
        wait_for_polls(&[&first_polls], 10_000, "solo class made no progress").await;
        first_stop.store(true, Ordering::Release);
        for handle in first_handles {
            handle.await.unwrap();
        }

        // Snapshot A's cumulative exec time after the solo phase so the rejoin
        // assertion below only measures the 2:8 phase. B never ran in phase 1.
        let a_exec_after_first = scheduler
            .stats()
            .classes
            .get(&class_a())
            .map(|c| seconds(c.total_exec_time))
            .unwrap_or(0.0);

        let stop = Arc::new(AtomicBool::new(false));
        let a_polls = Arc::new(AtomicU64::new(0));
        let b_polls = Arc::new(AtomicU64::new(0));
        let mut handles = Vec::new();
        for _ in 0..32 {
            handles.push(scheduler.spawn_in(
                class_a(),
                SaturatedWork {
                    stop: stop.clone(),
                    polls: a_polls.clone(),
                },
            ));
            handles.push(scheduler.spawn_in(
                class_b(),
                SaturatedWork {
                    stop: stop.clone(),
                    polls: b_polls.clone(),
                },
            ));
        }
        wait_for_polls(
            &[&a_polls, &b_polls],
            30_000,
            "rejoined class made no progress",
        )
        .await;

        let a = a_polls.load(Ordering::Relaxed);
        let b = b_polls.load(Ordering::Relaxed);

        stop.store(true, Ordering::Release);
        for handle in handles {
            handle.await.unwrap();
        }

        let stats = scheduler.stats();
        let a_exec = seconds(stats.classes[&class_a()].total_exec_time) - a_exec_after_first;
        let b_exec = seconds(stats.classes[&class_b()].total_exec_time);
        let a_share = a_exec / (a_exec + b_exec);
        assert!(
            (0.19..=0.21).contains(&a_share),
            "expected A to rejoin at 20% by exec time, got A={a} polls ({a_exec:.3}s), \
             B={b} polls ({b_exec:.3}s), share={a_share}"
        );
    });
}

struct CaptureThenReady {
    polls: Arc<AtomicU64>,
    captured: Arc<Mutex<Option<Waker>>>,
}

impl Future for CaptureThenReady {
    type Output = ();

    fn poll(self: Pin<&mut Self>, cx: &mut Context<'_>) -> Poll<Self::Output> {
        let poll = self.polls.fetch_add(1, Ordering::SeqCst);
        if poll == 0 {
            *self.captured.lock().unwrap() = Some(cx.waker().clone());
            Poll::Pending
        } else {
            Poll::Ready(())
        }
    }
}

struct BlockingPoll {
    started: Arc<AtomicBool>,
    release: Arc<AtomicBool>,
}

struct ManagedPanicOnPoll;

impl Future for ManagedPanicOnPoll {
    type Output = ();

    fn poll(self: Pin<&mut Self>, _cx: &mut Context<'_>) -> Poll<Self::Output> {
        panic!("intentional managed panic");
    }
}

struct PanicOnPoll;

impl Future for PanicOnPoll {
    type Output = ();

    fn poll(self: Pin<&mut Self>, _cx: &mut Context<'_>) -> Poll<Self::Output> {
        panic!("intentional direct-poll panic");
    }
}

impl Future for BlockingPoll {
    type Output = ();

    fn poll(self: Pin<&mut Self>, _cx: &mut Context<'_>) -> Poll<Self::Output> {
        self.started.store(true, Ordering::Release);
        while !self.release.load(Ordering::Acquire) {
            std::hint::spin_loop();
        }
        Poll::Ready(())
    }
}

struct DisableWhilePolling {
    started: Arc<tokio::sync::Notify>,
    release: Arc<AtomicBool>,
    polls: Arc<AtomicU64>,
}

impl Future for DisableWhilePolling {
    type Output = ();

    fn poll(self: Pin<&mut Self>, cx: &mut Context<'_>) -> Poll<Self::Output> {
        let poll = self.polls.fetch_add(1, Ordering::SeqCst);
        if poll == 0 {
            self.started.notify_one();
            while !self.release.load(Ordering::Acquire) {
                std::hint::spin_loop();
            }
            cx.waker().wake_by_ref();
            Poll::Pending
        } else {
            Poll::Ready(())
        }
    }
}

async fn wait_for_default_queue(scheduler: &Scheduler, expected: usize) {
    tokio::time::timeout(Duration::from_secs(2), async {
        loop {
            if scheduler.stats().classes[&TaskClass::default()].queued >= expected {
                return;
            }
            tokio::task::yield_now().await;
        }
    })
    .await
    .expect("expected scheduler backlog was not observed");
}

#[test]
fn proxy_waker_waits_for_scheduler_admission() {
    run(2, async {
        let scheduler = Scheduler::builder().max_concurrent_polls(1).build();
        let waiter_polls = Arc::new(AtomicU64::new(0));
        let captured = Arc::new(Mutex::new(None));
        let waiter = scheduler.spawn(CaptureThenReady {
            polls: waiter_polls.clone(),
            captured: captured.clone(),
        });

        tokio::time::timeout(Duration::from_secs(2), async {
            while captured.lock().unwrap().is_none() {
                tokio::task::yield_now().await;
            }
        })
        .await
        .unwrap();

        let blocker_started = Arc::new(AtomicBool::new(false));
        let blocker_release = Arc::new(AtomicBool::new(false));
        let blocker = scheduler.spawn(BlockingPoll {
            started: blocker_started.clone(),
            release: blocker_release.clone(),
        });
        tokio::time::timeout(Duration::from_secs(2), async {
            while !blocker_started.load(Ordering::Acquire) {
                tokio::task::yield_now().await;
            }
        })
        .await
        .unwrap();

        captured.lock().unwrap().take().unwrap().wake();
        tokio::time::sleep(Duration::from_millis(25)).await;
        assert_eq!(
            1,
            waiter_polls.load(Ordering::SeqCst),
            "the inner wake must queue, not directly wake the Tokio task"
        );

        blocker_release.store(true, Ordering::Release);
        blocker.await.unwrap();
        waiter.await.unwrap();
        assert_eq!(2, waiter_polls.load(Ordering::SeqCst));
    });
}

#[test]
fn aborting_queued_tasks_reclaims_scheduler_state() {
    run(2, async {
        let scheduler = Scheduler::builder().max_concurrent_polls(1).build();
        let handles = (0..128)
            .map(|_| {
                scheduler.spawn(FiniteSelfWaking {
                    remaining: usize::MAX,
                })
            })
            .collect::<Vec<_>>();

        tokio::task::yield_now().await;
        for handle in &handles {
            handle.abort();
        }
        for handle in handles {
            assert!(handle.await.unwrap_err().is_cancelled());
        }

        tokio::time::timeout(
            Duration::from_secs(2),
            scheduler.spawn(async { "still live" }),
        )
        .await
        .expect("scheduler slot leaked")
        .unwrap();
        let stats = scheduler.stats();
        assert_eq!(0, stats.active_polls);
        assert_eq!(0, stats.classes[&TaskClass::default()].queued);
    });
}

#[test]
fn dynamic_weight_change_reallocates_share() {
    run(4, async {
        let scheduler = Scheduler::builder()
            .max_concurrent_polls(4)
            .weight(class_a(), 3)
            .weight(class_b(), 7)
            .build();

        let stop = Arc::new(AtomicBool::new(false));
        let a_polls = Arc::new(AtomicU64::new(0));
        let b_polls = Arc::new(AtomicU64::new(0));
        let mut handles = Vec::new();
        for _ in 0..32 {
            handles.push(scheduler.spawn_in(
                class_a(),
                SaturatedWork {
                    stop: stop.clone(),
                    polls: a_polls.clone(),
                },
            ));
            handles.push(scheduler.spawn_in(
                class_b(),
                SaturatedWork {
                    stop: stop.clone(),
                    polls: b_polls.clone(),
                },
            ));
        }

        // Let the initial 30/70 allocation run for a while.
        wait_for_polls(
            &[&a_polls, &b_polls],
            20_000,
            "initial dynamic-weight workload made no progress",
        )
        .await;
        let a_before_flip = a_polls.load(Ordering::Relaxed);
        let b_before_flip = b_polls.load(Ordering::Relaxed);
        // Snapshot exec time so the post-flip assertion measures only the new
        // allocation, not the initial 30/70 phase.
        let stats_before_flip = scheduler.stats();
        let a_exec_before_flip = seconds(stats_before_flip.classes[&class_a()].total_exec_time);
        let b_exec_before_flip = seconds(stats_before_flip.classes[&class_b()].total_exec_time);

        // Flip the weights dynamically: A 3:7 -> 7:3.
        scheduler.set_weight(class_a(), 7);
        scheduler.set_weight(class_b(), 3);

        // After the flip, A should dominate the polls.
        tokio::time::timeout(Duration::from_secs(10), async {
            loop {
                let a = a_polls.load(Ordering::Relaxed);
                let b = b_polls.load(Ordering::Relaxed);
                let a_delta = a - a_before_flip;
                let b_delta = b - b_before_flip;
                let total_delta = a_delta + b_delta;
                if total_delta >= 20_000 && a_delta as f64 / total_delta as f64 >= 0.65 {
                    break;
                }
                tokio::time::sleep(Duration::from_millis(2)).await;
            }
        })
        .await
        .expect("dynamic weight flip did not reallocate share");

        let a = a_polls.load(Ordering::Relaxed);
        let b = b_polls.load(Ordering::Relaxed);
        let a_delta = (a - a_before_flip) as f64;
        let total_delta = (a + b - a_before_flip - b_before_flip) as f64;
        let a_share_after = a_delta / total_delta;
        assert!(
            a_share_after >= 0.65,
            "expected A to dominate polls after flip, got A={a}, B={b}, share_after={a_share_after}"
        );

        // The exec-time share of the post-flip delta must also favor A.
        let stats = scheduler.stats();
        let a_exec = seconds(stats.classes[&class_a()].total_exec_time) - a_exec_before_flip;
        let b_exec = seconds(stats.classes[&class_b()].total_exec_time) - b_exec_before_flip;
        let a_exec_share = a_exec / (a_exec + b_exec);
        assert!(
            a_exec_share >= 0.65,
            "expected A to dominate by exec time after flip, got share={a_exec_share}"
        );

        // The recorded weight in stats should reflect the new value.
        assert_eq!(7, stats.classes[&class_a()].weight);
        assert_eq!(3, stats.classes[&class_b()].weight);

        stop.store(true, Ordering::Release);
        for handle in handles {
            handle.await.unwrap();
        }
    });
}

#[test]
fn dynamic_soft_cpu_limit_change_reallocates_share_and_updates_query() {
    run(4, async {
        let scheduler = Scheduler::builder()
            .max_concurrent_polls(4)
            .soft_cpu_limit(class_a(), SoftCpuLimit::from_cores(3).unwrap())
            .soft_cpu_limit(class_b(), SoftCpuLimit::from_cores(7).unwrap())
            .build();
        let stop = Arc::new(AtomicBool::new(false));
        let a = Arc::new(AtomicU64::new(0));
        let b = Arc::new(AtomicU64::new(0));
        let mut handles = Vec::new();
        for _ in 0..32 {
            for (class, polls) in [(class_a(), a.clone()), (class_b(), b.clone())] {
                handles.push(scheduler.spawn_in(
                    class,
                    SaturatedWork {
                        stop: stop.clone(),
                        polls,
                    },
                ));
            }
        }
        wait_for_polls(
            &[&a, &b],
            20_000,
            "initial dynamic soft-limit workload made no progress",
        )
        .await;
        let before = scheduler.stats();
        let a_before = seconds(before.classes[&class_a()].total_exec_time);
        let b_before = seconds(before.classes[&class_b()].total_exec_time);
        scheduler.set_soft_cpu_limit(class_a(), SoftCpuLimit::from_cores(7).unwrap());
        scheduler.set_soft_cpu_limit(class_b(), SoftCpuLimit::from_cores(3).unwrap());
        assert_eq!(0, scheduler.stats().classes[&class_a()].weight);
        assert_eq!(7_000, scheduler.soft_cpu_limit_millicores(class_a()));
        assert_eq!(3_000, scheduler.soft_cpu_limit_millicores(class_b()));
        let polls_before = a.load(Ordering::Relaxed) + b.load(Ordering::Relaxed);
        tokio::time::timeout(Duration::from_secs(10), async {
            loop {
                if a.load(Ordering::Relaxed) + b.load(Ordering::Relaxed) >= polls_before + 20_000 {
                    break;
                }
                tokio::time::sleep(Duration::from_millis(2)).await;
            }
        })
        .await
        .expect("updated soft-limit workload made no progress");
        let after = scheduler.stats();
        let a_exec = seconds(after.classes[&class_a()].total_exec_time) - a_before;
        let b_exec = seconds(after.classes[&class_b()].total_exec_time) - b_before;
        assert!(
            a_exec / (a_exec + b_exec) >= 0.65,
            "soft update did not reallocate exec time"
        );
        stop.store(true, Ordering::Release);
        for handle in handles {
            handle.await.unwrap();
        }
    });
}

/// Under a dual-backlog with a tiny admission window, every task must wait in
/// the scheduler queue before its first poll, so `admitted` counts tasks and
/// `total_admission_wait` is strictly positive for both classes.
#[test]
fn admission_wait_is_positive_under_backlog() {
    run(4, async {
        let scheduler = Scheduler::builder()
            .max_concurrent_polls(2)
            .weight(class_query(), 2)
            .weight(class_write(), 8)
            .build();

        // A task that never completes on its own; it keeps polling Pending so it
        // holds its admission slot and forces the queue to build up.
        let _never_complete = std::future::pending::<()>();

        let tasks: Vec<JoinHandle<()>> = (0..16)
            .map(|i| {
                let scheduler = scheduler.clone();
                tokio::spawn(async move {
                    let class: TaskClass = if i % 2 == 0 { class_query() } else { class_write() };
                    let handle: JoinHandle<()> =
                        scheduler.spawn_in(class, std::future::pending::<()>());
                    let _: () = handle.await.unwrap();
                })
            })
            .collect();

        // Give the scheduler time to admit a subset and queue the rest.
        tokio::time::sleep(Duration::from_millis(50)).await;

        let query = stats_after(&scheduler, class_query());
        let write = stats_after(&scheduler, class_write());

        assert!(query.admitted > 0, "query class should have admitted tasks");
        assert!(write.admitted > 0, "write class should have admitted tasks");
        assert!(
            query.total_admission_wait > 0,
            "query admission wait must be positive under backlog"
        );
        assert!(
            write.total_admission_wait > 0,
            "write admission wait must be positive under backlog"
        );

        // 16 tasks (8 per class) with max_polls=2: every task gets admitted
        // exactly once because `pending()` returns Pending immediately and
        // releases its admission slot after the first poll. The queued ones are
        // then admitted in turn, so admitted == tasks per class.
        assert_eq!(query.admitted, 8, "query admitted count");
        assert_eq!(write.admitted, 8, "write admitted count");

        // Clean up: abort the infinite tasks.
        for task in tasks {
            task.abort();
        }
    });
}

/// With `max_concurrent_polls` >= tasks and a single class, admission is
/// immediate: tasks are admitted without waiting, so `total_admission_wait`
/// stays near zero (only scheduling noise).
#[test]
fn admission_wait_is_zero_without_backlog() {
    run(4, async {
        let scheduler = Scheduler::builder()
            .max_concurrent_polls(64)
            .weight(class_query(), 2)
            .weight(class_write(), 8)
            .build();

        let mut handles = Vec::new();
        for _ in 0..8 {
            let scheduler = scheduler.clone();
            let handle: JoinHandle<()> = scheduler.spawn_in(class_query(), async {});
            handles.push(tokio::spawn(async move {
                let _: () = handle.await.unwrap();
            }));
        }
        for handle in handles {
            handle.await.unwrap();
        }

        let query = stats_after(&scheduler, class_query());
        let write = stats_after(&scheduler, class_write());
        assert_eq!(query.admitted, 8, "query admitted count");
        assert_eq!(write.admitted, 0, "write admitted count");
        assert!(
            query.total_admission_wait < Duration::from_millis(1).as_nanos(),
            "unexpectedly large admission wait without backlog: {:?}",
            query.total_admission_wait
        );
    });
}

async fn short() {
    // Enough work that the task spans a few polls and holds admission.
    for _ in 0..200 {
        tokio::task::yield_now().await;
    }
}

/// Weights 2:8 under a dual backlog should produce a write-class admission
/// advantage: write tasks get admitted earlier, so their mean admission wait
/// is smaller than query's.
#[test]
fn write_class_has_smaller_admission_wait_under_2_8() {
    run(4, async {
        let scheduler = Scheduler::builder()
            .max_concurrent_polls(2)
            .weight(class_query(), 2)
            .weight(class_write(), 8)
            .build();

        let mut handles = Vec::new();
        for i in 0..64 {
            let scheduler = scheduler.clone();
            let class: TaskClass = if i % 2 == 0 { class_query() } else { class_write() };
            let handle: JoinHandle<()> = scheduler.spawn_in(class, short());
            handles.push(tokio::spawn(async move {
                let _: () = handle.await.unwrap();
            }));
        }
        for handle in handles {
            handle.await.unwrap();
        }

        let query = stats_after(&scheduler, class_query());
        let write = stats_after(&scheduler, class_write());
        let query_mean = seconds(query.total_admission_wait) / query.admitted.max(1) as f64;
        let write_mean = seconds(write.total_admission_wait) / write.admitted.max(1) as f64;

        assert!(query.admitted > 0, "query admitted count");
        assert!(write.admitted > 0, "write admitted count");
        assert!(
            write_mean < query_mean,
            "write (weight 8) should have smaller mean admission wait than query (weight 2): \
             write={write_mean:.6}s query={query_mean:.6}s"
        );
    });
}

/// A raised limit admits waiting work at once.
#[test]
fn raised_limit_admits_waiting_work() {
    run(2, async {
        let scheduler = Scheduler::builder().max_concurrent_polls(1).build();
        let release = Arc::new(AtomicBool::new(false));
        let started = Arc::new(AtomicBool::new(false));
        let blocker = scheduler.spawn(BlockingPoll {
            started: started.clone(),
            release: release.clone(),
        });
        tokio::time::timeout(Duration::from_secs(2), async {
            while !started.load(Ordering::Acquire) {
                tokio::task::yield_now().await;
            }
        })
        .await
        .expect("blocker must hold the only admission slot");
        let waiting = scheduler.spawn(async { 5_u8 });
        wait_for_default_queue(&scheduler, 1).await;
        scheduler.set_max_concurrent_polls(2);
        let value = tokio::time::timeout(Duration::from_secs(2), waiting)
            .await
            .expect("waiting work must be admitted");
        assert_eq!(5, value.unwrap());
        release.store(true, Ordering::Release);
        blocker.await.unwrap();
    });
}

/// The weights of several classes change in one step.
#[test]
fn listed_weights_reallocate_shares() {
    run(4, async {
        let scheduler = Scheduler::builder()
            .max_concurrent_polls(4)
            .weight(class_a(), 3)
            .weight(class_b(), 7)
            .build();
        scheduler.set_weights(vec![(class_a(), 8), (class_b(), 2)]);
        let stop = Arc::new(AtomicBool::new(false));
        let a = Arc::new(AtomicU64::new(0));
        let b = Arc::new(AtomicU64::new(0));
        let mut handles = Vec::new();
        for _ in 0..32 {
            for (class, polls) in [(class_a(), a.clone()), (class_b(), b.clone())] {
                handles.push(scheduler.spawn_in(
                    class,
                    SaturatedWork {
                        stop: stop.clone(),
                        polls,
                    },
                ));
            }
        }
        wait_for_polls(&[&a, &b], 10_000, "listed weights made no progress").await;
        stop.store(true, Ordering::Release);
        for handle in handles {
            handle.await.unwrap();
        }
        let stats = scheduler.stats();
        let a_exec = seconds(stats.classes[&class_a()].total_exec_time);
        let b_exec = seconds(stats.classes[&class_b()].total_exec_time);
        assert!((0.75..=0.85).contains(&(a_exec / (a_exec + b_exec))));
    });
}

struct CountingWaker {
    wakes: AtomicU64,
}

impl Wake for CountingWaker {
    fn wake(self: Arc<Self>) {
        self.wakes.fetch_add(1, Ordering::SeqCst);
    }
}

/// A waiting future that is polled again with another waker is woken through that
/// one.
#[test]
fn latest_waker_is_woken() {
    let scheduler = Scheduler::builder().max_concurrent_polls(1).build();
    let wakers: Vec<Arc<CountingWaker>> = (0..3)
        .map(|_| Arc::new(CountingWaker { wakes: AtomicU64::new(0) }))
        .collect();
    let wakes = |i: usize| wakers[i].wakes.load(Ordering::SeqCst);
    let context = |i: usize| Waker::from(wakers[i].clone());
    let mut blocker = Box::pin(scheduler.schedule(std::future::pending::<()>()));
    let mut queued = Box::pin(scheduler.schedule(async { 3_u8 }));
    assert!(blocker.as_mut().poll(&mut Context::from_waker(&context(0))).is_pending());
    assert!(queued.as_mut().poll(&mut Context::from_waker(&context(1))).is_pending());
    let before = stats_after(&scheduler, TaskClass::default());
    assert_eq!(1, before.queued);
    assert!(queued.as_mut().poll(&mut Context::from_waker(&context(2))).is_pending());
    assert_eq!(before, stats_after(&scheduler, TaskClass::default()));
    assert_eq!((1, 0, 0), (wakes(0), wakes(1), wakes(2)));
    drop(blocker);
    assert_eq!((1, 0, 1), (wakes(0), wakes(1), wakes(2)));
    assert!(matches!(
        queued.as_mut().poll(&mut Context::from_waker(&context(2))),
        Poll::Ready(3)
    ));
}
