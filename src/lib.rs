//! A single-node scheduler of external commands: tasks run once at an instant,
//! daily at a local time, or after another task finishes. This crate holds the
//! verified core: the task table and its dependency index, the timer decisions,
//! the breadth-first propagation queue, the persisted snapshot and its
//! recovery, the bytes a run writes, and the client's schedule options.

pub mod chain;
pub mod input;
pub mod record;
pub mod store;
pub mod time;
pub mod timer;
pub mod types;
