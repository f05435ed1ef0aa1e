//! A discrete-time simulation of competing CPU/IO scheduling disciplines.
//!
//! Processes carry an alternating sequence of CPU and IO demand units
//! ("bursts"). Three scheduling policies (first-come-first-served, priority,
//! round-robin) each own one resource's queue and advance exactly one ready
//! process by one tick per invocation. A driver coordinates one CPU policy and
//! one IO policy, admits processes from an arrival backlog, and moves each
//! process between the two resources as its burst sequence alternates, until
//! every process has consumed all of its bursts.

pub mod process;
pub mod scheduler;
pub mod sim;
pub mod stats;
pub mod system_state;
pub mod util;
