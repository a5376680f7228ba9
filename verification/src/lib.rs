//! Cooperative, policy-controlled task scheduling.

pub mod admissions;
pub mod aio;
pub mod batch;
pub mod builder;
pub mod class;
pub mod control;
pub mod default;
pub mod effects;
pub mod error;
pub mod fairness;
pub mod invariants;
pub mod laws;
pub mod model;
pub mod polling;
pub mod scheduler;
pub mod shares;
pub mod spawner;
pub mod state;
pub mod stats;
pub mod turns;
pub mod wakers;

pub use batch::WakeBatch;
pub use builder::SchedulerBuilder;
pub use class::{SoftCpuLimit, TaskClass};
pub use control::PollDecision;
pub use default::{default_scheduler, set_default_scheduler};
pub use polling::{Ended, Polled};
pub use scheduler::{PollStart, ProxyWaker, Scheduled, Scheduler};
pub use spawner::Spawner;
pub use stats::{ClassStats, SchedulerStats};
pub use wakers::Wakers;
