//! A verified core for a personal time-tracking tool.
//!
//! Tasks accumulate worked seconds through a start/pause/resume timer,
//! are grouped into named folders, and can be exported as CSV reports.
//! Persistence works on whole-value snapshots that round-trip exactly.

pub mod clock;
pub mod export;
pub mod numerals;
pub mod persist;
pub mod registry;
pub mod stats;
pub mod store;
pub mod strutil;
pub mod task;
pub mod tracker;
