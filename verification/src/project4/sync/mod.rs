//! Synchronization primitives.
pub mod condition_variable;
pub mod mutex;
pub mod semaphore;
