//! A cooperative, single-context task scheduler.
//!
//! Work is queued as task handles and drained one entry per tick into a
//! caller-owned bucket. Repeatable entries that ask to keep going are put back
//! behind everything already waiting, so no entry can starve the others.
pub mod task;
pub mod work;
pub mod scheduler;
pub mod laws;
