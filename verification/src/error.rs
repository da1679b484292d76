//! The errors that kernel operations report.
use crate::memory::addr::VirtAddr;
use crate::memory::page_table::entry::PtEntryFlags;
use crate::types::{ProcId, RawFd};
use vstd::prelude::*;

verus! {

/// Why a kernel operation was refused.
#[derive(Debug, Clone, Copy, PartialEq, Eq, Structural)]
pub enum KernelError {
    /// The address lies above the highest usable virtual address.
    TooLargeVirtualAddress(u64),
    /// Subtracting from a virtual address went below zero.
    VirtualAddressUnderflow,
    /// No page is mapped at the address.
    VirtualPageNotMapped(VirtAddr),
    /// A page is mapped at the address, without the permissions asked for.
    InaccessiblePage(VirtAddr),
    /// The address is mapped already, with permissions (third) that differ from the ones asked for (second).
    VirtualAddressWithUnexpectedPerm(VirtAddr, PtEntryFlags, PtEntryFlags),
    /// Physical memory is exhausted.
    NoFreePage,
    /// The process table is full.
    NoFreeProc,
    /// The process has no such open file.
    FileDescriptorNotFound(RawFd, ProcId),
    /// The process has no room for another open file.
    NoFreeFileDescriptorTableEntry,
    /// A signal return outside of a signal handler.
    NotInSignalHandler,
    /// The root directory cannot be unlinked.
    UnlinkRootDir,
    /// "." and ".." cannot be unlinked.
    UnlinkDots,
    /// A path goes through something that is not a directory.
    NonDirectoryPathComponent,
    /// A path names something that does not exist.
    FsEntryNotFound,
    /// A directory that still has entries cannot be unlinked.
    DirectoryNotEmpty,
    /// The root directory cannot be created.
    CreateRootDir,
    /// The name is taken.
    CreateAlreadyExists,
    /// The root directory cannot be the name of a new link.
    LinkRootDir,
    /// A link cannot span devices.
    LinkCrossDevices,
    /// The parent of a new link is not a directory.
    LinkToNonDirectory,
    /// The name of a new directory entry is taken.
    LinkAlreadyExists,
    /// The table of inodes is full.
    NoFreeInode,
}

} // verus!
