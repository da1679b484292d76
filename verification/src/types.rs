//! Small value types shared by the kernel and its users.
use vstd::prelude::*;

verus! {

/// A process identifier; never zero for a live process.
#[derive(Debug, Clone, Copy, PartialEq, Eq, Structural)]
pub struct ProcId(pub u32);

impl ProcId {
    /// Wraps a process number.
    pub fn new(value: u32) -> (r: Self)
        ensures
            r.0 == value,
    {
        ProcId(value)
    }

    /// Returns the process number.
    pub fn get(self) -> (r: u32)
        ensures
            r == self.0,
    {
        self.0
    }
}

/// An index into a process's table of open files.
#[derive(Debug, Clone, Copy, PartialEq, Eq, Structural)]
pub struct RawFd(pub usize);

impl RawFd {
    /// Wraps a descriptor number.
    pub fn new(value: usize) -> (r: Self)
        ensures
            r.0 == value,
    {
        RawFd(value)
    }

    /// Returns the descriptor number.
    pub fn get(self) -> (r: usize)
        ensures
            r == self.0,
    {
        self.0
    }
}

} // verus!
