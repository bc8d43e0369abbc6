//! A fixed-priority preemptive scheduling core for periodic tasks, paired
//! with an immediate priority-ceiling protocol for sharing peripherals
//! across priority tiers without unbounded priority inversion or deadlock.
//!
//! The crate models time as a free-running 32-bit tick counter that wraps,
//! keeps a static table of periodic task descriptors, and drives a
//! run-to-completion dispatcher: the highest-priority ready task preempts
//! whatever runs below it and resumes it afterwards in stack order. Shared
//! resources carry a priority ceiling; a task holding a resource behaves at
//! the ceiling for the duration, which rules out waiting and deadlock.
//!
//! The host environment supplies the tick source and performs the task
//! bodies; every scheduling and locking decision is made here.
#![verifier::loop_isolation(false)]

pub mod clock;
pub mod sched;
