//! The page that traps from and to user space go through.
use super::trap::{frames, TrapFrame, UserRegisters};
use crate::memory::addr::{VirtAddr, VA_MAX};
use crate::memory::layout::TRAMPOLINE;
use vstd::prelude::*;

verus! {

/// Where code of the trampoline page is mapped, given its address and that of
/// the page, both before mapping.
fn mapped_addr(code: u64, trampoline: u64) -> (r: VirtAddr)
    requires
        trampoline <= code,
        TRAMPOLINE + (code - trampoline) <= VA_MAX,
    ensures
        r.0 == TRAMPOLINE + (code - trampoline),
{
    VirtAddr(TRAMPOLINE + (code - trampoline))
}

/// Where the code that takes traps from user space is mapped.
pub fn user_vec_addr(user_vec: u64, trampoline: u64) -> (r: VirtAddr)
    requires
        trampoline <= user_vec,
        TRAMPOLINE + (user_vec - trampoline) <= VA_MAX,
    ensures
        r.0 == TRAMPOLINE + (user_vec - trampoline),
{
    mapped_addr(user_vec, trampoline)
}

/// Where the code that returns to user space is mapped.
pub fn user_ret_addr(user_ret: u64, trampoline: u64) -> (r: VirtAddr)
    requires
        trampoline <= user_ret,
        TRAMPOLINE + (user_ret - trampoline) <= VA_MAX,
    ensures
        r.0 == TRAMPOLINE + (user_ret - trampoline),
{
    mapped_addr(user_ret, trampoline)
}

/// What the kernel starts with when it takes a trap from user space.
#[derive(Debug, Clone, Copy, PartialEq, Eq)]
pub struct KernelEntry {
    /// The page table that is installed.
    pub satp: u64,
    /// The code that is run.
    pub pc: u64,
    /// The register that holds the number of the hart.
    pub tp: u64,
    /// The stack pointer.
    pub sp: u64,
    /// The frame pointer.
    pub fp: u64,
    /// The words on the stack, from the stack pointer on: the frame pointer of the
    /// caller and the address it was called from, of which there are none.
    pub frame: [u64; 2],
}

/// Takes a trap from user space: saves the registers, and enters the kernel.
pub fn user_vec(regs: &UserRegisters, tf: &mut TrapFrame) -> (r: KernelEntry)
    requires
        old(tf).kernel_sp >= 16,
    ensures
        *final(tf) == (TrapFrame { user_registers: *regs, ..*old(tf) }),
        r.satp == old(tf).kernel_satp,
        r.pc == old(tf).kernel_trap,
        r.tp == old(tf).kernel_hartid,
        r.sp == old(tf).kernel_sp - 16,
        r.fp == old(tf).kernel_sp,
        r.frame@ == seq![0u64, 0u64],
        entered(*regs, *old(tf), *final(tf), r),
{
    tf.user_registers = *regs;
    let frame: [u64; 2] = [0, 0];
    assert(frame@ =~= seq![0u64, 0u64]);
    KernelEntry {
        satp: tf.kernel_satp,
        pc: tf.kernel_trap,
        tp: tf.kernel_hartid,
        sp: tf.kernel_sp - 16,
        fp: tf.kernel_sp,
        frame,
    }
}

/// Whether the kernel has been entered from user space.
pub open spec fn entered(
    regs: UserRegisters,
    before: TrapFrame,
    after: TrapFrame,
    r: KernelEntry,
) -> bool {
    &&& after == (TrapFrame { user_registers: regs, ..before })
    &&& r.satp == before.kernel_satp
    &&& r.pc == before.kernel_trap
    &&& r.tp == before.kernel_hartid
    &&& r.sp == before.kernel_sp - 16
    &&& r.fp == before.kernel_sp
    &&& r.frame@ == seq![0u64, 0u64]
}

/// A process that enters the kernel has all its registers saved, and the kernel begins with
/// what it has left in the trap frame for that: its page table, its stack, its code and the
/// number of the hart, which stay there.
pub proof fn law_entered(
    regs: UserRegisters,
    before: TrapFrame,
    after: TrapFrame,
    r: KernelEntry,
)
    requires
        before.kernel_sp >= 16,
        entered(regs, before, after, r),
    ensures
        after.user_registers == regs,
        after.epc == before.epc,
        after.kernel_satp == before.kernel_satp && r.satp == before.kernel_satp,
        after.kernel_sp == before.kernel_sp && r.fp == before.kernel_sp && r.sp + 16
            == before.kernel_sp,
        after.kernel_trap == before.kernel_trap && r.pc == before.kernel_trap,
        after.kernel_hartid == before.kernel_hartid && r.tp == before.kernel_hartid,
        r.frame@[0] == 0 && r.frame@[1] == 0,
{
}

/// Goes back to user space: returns the page table that is installed, in the form that
/// the register for it has, and the registers, as they are restored.
pub fn user_ret(satp: u64, tf: &TrapFrame) -> (r: (u64, UserRegisters))
    ensures
        r.0 == satp,
        r.1 == tf.user_registers,
{
    (satp, tf.user_registers)
}

/// A backtrace that comes to where the kernel was entered ends there.
pub proof fn law_backtrace_ends_at_entry(
    entry: KernelEntry,
    read: spec_fn(int) -> Option<u64>,
    depth: nat,
    most: nat,
)
    requires
        entry.frame@ == seq![0u64, 0u64],
        entry.fp == entry.sp + 16,
        read(entry.sp as int) == Some(entry.frame@[0]),
        read(entry.sp + 8) == Some(entry.frame@[1]),
        depth < most,
    ensures
        frames(read, entry.fp, depth, most) == Seq::<super::trap::BacktraceLine>::empty(),
{
    assert(frames(read, 0, depth + 1, most) =~= seq![]);
    assert(frames(read, entry.fp, depth, most) =~= seq![]);
}

} // verus!
