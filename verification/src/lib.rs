//! The logic of a small operating system for 64-bit RISC-V machines, of the library
//! that its user programs are built on, and of some of these programs.
//!
//! Whatever touches the machine itself (registers, device memory, the clock) is left
//! to the caller: where such a step has to be taken in between, a function returns the
//! step as an action and is called again with what came of it.

pub mod arrays;
pub mod bytes;
pub mod console;
pub mod error;
pub mod fs;
pub mod interrupt;
pub mod lru;
pub mod memory;
pub mod net;
pub mod proc;
pub mod slab_allocator;
pub mod sync;
pub mod syscall;
pub mod types;
pub mod user;
