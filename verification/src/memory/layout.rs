//! Where things lie in memory.
use super::addr::VirtAddr;
use super::PAGE_SIZE;
use vstd::prelude::*;

verus! {

/// The address of the page that traps from and to user space go through: the
/// highest one, in the page table of the kernel as in that of each process.
pub const TRAMPOLINE: u64 = 0x3f_ffff_f000;

/// The address of the trap frame in the page table of each process.
pub const TRAPFRAME: u64 = 0x3f_ffff_e000;

/// How many pages the kernel stack of a process takes up.
pub const KSTACK_PAGES: u64 = 4;

/// Bytes from one kernel stack to the next; the page below each stack stays
/// unmapped.
pub const KSTACK_STRIDE: u64 = 0x5000;

/// Interrupt number of the console.
pub const UART0_IRQ: u32 = 10;

/// Interrupt number of the disk.
pub const VIRTIO0_IRQ: u32 = 1;

/// Interrupt number of the network device.
pub const E1000_IRQ: u32 = 33;

/// Where the kernel stack of the `i`-th process begins.
pub open spec fn kstack_addr(i: nat) -> int {
    TRAMPOLINE - (i + 1) * KSTACK_STRIDE
}

/// The address of the kernel stack of the `i`-th process.
pub fn kstack(i: usize) -> (r: VirtAddr)
    requires
        i < 0x1_0000,
    ensures
        r.0 == TRAMPOLINE - (i + 1) * KSTACK_STRIDE,
        r.0 == kstack_addr(i as nat),
        r.0 + KSTACK_PAGES * PAGE_SIZE <= TRAMPOLINE,
{
    VirtAddr(TRAMPOLINE - (i as u64 + 1) * KSTACK_STRIDE)
}

/// The kernel stacks of different processes do not overlap, and a page lies
/// between any two.
pub proof fn law_stacks_apart(i: nat, j: nat)
    requires
        i < j < 0x1_0000,
    ensures
        (TRAMPOLINE - (j + 1) * KSTACK_STRIDE) + KSTACK_PAGES * PAGE_SIZE + PAGE_SIZE <= TRAMPOLINE
            - (i + 1) * KSTACK_STRIDE,
{
}

/// The first stack ends a page below the page for traps, and each one a page below the one
/// before it, so that what grows beyond a stack meets no other one.
pub proof fn law_stacks_in_row(i: nat)
    ensures
        kstack_addr(0) + KSTACK_PAGES * PAGE_SIZE + 4096 == TRAMPOLINE,
        kstack_addr(i + 1) + KSTACK_PAGES * PAGE_SIZE + 4096 == kstack_addr(i),
        kstack_addr(i) % 4096 == 0,
{
}

/// The page for traps is the highest one that there is, and the trap frame lies in the page
/// below it.
pub proof fn law_top_pages()
    ensures
        TRAMPOLINE + 4096 == 0x40_0000_0000,
        TRAPFRAME + 4096 == TRAMPOLINE,
        KSTACK_STRIDE == (KSTACK_PAGES + 1) * PAGE_SIZE,
{
}

} // verus!
