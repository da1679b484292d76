//! Locks, and waiting for something to happen.

pub mod sleep_lock;
pub mod spin_lock;
