# catio

`catio` applies a cooperative scheduling policy to tasks on an existing Tokio
runtime. It wraps futures, bounds how many of their polls are admitted at a time,
and decides whose poll comes next, so that classes of tasks which compete get
execution time in proportion to their entitlements. No slot is left free while a
task waits for one, and an idle class reserves nothing.

The decisions are made by a library that is written in Verus and verified. What
surrounds it is ordinary Rust.

## Layout

- `src/` is the library.
  - `class`, `stats`, `batch`: identifiers, entitlements, counters and wakes.
  - `control`: the phases of one task.
  - `state`: the tables and queues, and the steps that change them.
  - `builder`, `scheduler`, `spawner`: the interface.
  - `wakers`, `polling`: the executors' wakers, of whatever type, and the polls that
    keep them in step with the scheduler.
  - `default`: the slot of the default scheduler.
  - `aio`, `error`: the decisions of an experimental Linux AIO prototype, which is
    not part of the scheduler.
  - `model`: the mathematical model that all contracts of the scheduler speak of.
  - `invariants`: every step keeps the model consistent.
  - `laws`, `fairness`, `shares`, `turns`: what can be relied on, as theorems.
- `app/` embeds the library in Tokio: the lock, the clock, the wakers, the futures
  and the system calls.
- `tests/` runs the library, step by step and under Tokio.

## Using the library

A `Scheduler` is a value that is changed by one call at a time. Its owner tells it
what happens to a wrapped future, and when, in nanoseconds:

- `schedule`, `schedule_in`: a future is wrapped.
- `begin_poll`: the executor comes to poll it, and is told to wait, to poll with
  the proxy waker, or to poll directly.
- `notify`: the future has called its proxy waker.
- `finish_pending`, `finish_ready`: the poll is over.
- `cancel`: the future is dropped.

Each call returns the tasks whose executors are to be woken. An owner that shares
the scheduler keeps it behind a lock and makes the wakes after releasing it.

`Scheduled::poll`, `finish` and `abandon` do the same with a table of the executors'
wakers beside the scheduler, and keep the two in step.

```rust
let mut scheduler = Scheduler::builder(Some(8))
    .soft_cpu_limit(TaskClass::new(1), SoftCpuLimit::from_cores(2).unwrap())
    .weight(TaskClass::new(2), 8)
    .build();
let task = scheduler.schedule_in(TaskClass::new(1), now);
let start = scheduler.begin_poll(&task, now);
for id in start.wakes.into_tasks() {
    wake(id);
}
```

## Scheduling model

Each class has a pass: the execution time that it was charged for, divided by its
entitlement and by the number of polls that shared the machine. A free slot goes to
the class with the lowest pass among those with waiting tasks, and to the task of
that class which has waited longest. A weight counts as that many cores; a soft CPU
limit is given in milli-cores. Both are relative, and neither is a cap.

A class whose entitlement changes starts over at the lowest pass of all classes. A
class that was idle takes up the highest pass that has been served, and so brings
along no credit.

A disabled scheduler takes no notice of new futures, and lets those that it knows
run directly for the rest of their lives. The ones that waited are handed back to
be woken; the ones that hold a slot give it back when their poll ends.
