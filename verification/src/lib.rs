//! Scheduling engine of a local task scheduler.
//!
//! Named commands run on a fixed interval or on a cron expression. The engine
//! keeps them in a queue ordered by due time, decides at each turn of the
//! loop whether to idle, to pace, to wait or to execute, catches up after the
//! machine has slept, and says which state is to be persisted.

pub mod config;
pub mod executor;
pub mod laws;
pub mod queue;
pub mod schedule;
pub mod scheduler;
pub mod state;
pub mod time;
pub mod util;
