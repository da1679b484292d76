//! Virtual and physical memory.
//!
//! The machine is a 64-bit RISC-V with Sv39 paging, so that machine words and
//! addresses are `u64`.
use vstd::prelude::*;

pub mod addr;
pub mod layout;
pub mod page_manager;
pub mod page_table;
pub mod validated;
pub mod vm_user;

verus! {

/// Number of address bits within one page.
pub const PAGE_SHIFT: u64 = 12;

/// Number of bytes in one page.
pub const PAGE_SIZE: u64 = 4096;

/// Bytes covered by one entry of a page table of the given level.
pub open spec fn level_size(level: nat) -> nat
    decreases level,
{
    if level == 0 {
        4096
    } else {
        512 * level_size((level - 1) as nat)
    }
}

/// The sizes of the three levels.
pub proof fn lemma_level_sizes()
    ensures
        level_size(0) == 0x1000,
        level_size(1) == 0x20_0000,
        level_size(2) == 0x4000_0000,
        level_size(3) == 0x80_0000_0000,
{
    reveal_with_fuel(level_size, 4);
}

/// Bytes covered by one entry of a page table of level `level`: 4 KiB, 2 MiB
/// or 1 GiB.
pub fn level_page_size(level: usize) -> (r: u64)
    requires
        level <= 2,
    ensures
        r == level_size(level as nat),
        r > 0,
{
    proof {
        lemma_level_sizes();
    }
    if level == 0 {
        0x1000
    } else if level == 1 {
        0x20_0000
    } else {
        0x4000_0000
    }
}

} // verus!
