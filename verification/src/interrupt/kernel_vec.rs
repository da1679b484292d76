//! What becomes of the registers when a trap is taken in supervisor mode.
use super::trap::{frames, BacktraceLine};
use crate::console::StackWords;
use vstd::prelude::*;

verus! {

/// Bytes of the stack that a trap takes up.
pub const TRAP_FRAME_SIZE: u64 = 272;

/// The registers that a function may change, and the frame pointer.
#[derive(Debug, Clone, Copy, PartialEq, Eq, Structural)]
pub struct KernelRegisters {
    pub ra: u64,
    pub sp: u64,
    pub gp: u64,
    pub tp: u64,
    pub t0: u64,
    pub t1: u64,
    pub t2: u64,
    pub fp: u64,
    pub a0: u64,
    pub a1: u64,
    pub a2: u64,
    pub a3: u64,
    pub a4: u64,
    pub a5: u64,
    pub a6: u64,
    pub a7: u64,
    pub t3: u64,
    pub t4: u64,
    pub t5: u64,
    pub t6: u64,
}

/// Whether the words from `sp` on, as many as a trap takes up, lie on the stack.
pub open spec fn has_room(stack: StackWords, sp: int) -> bool {
    forall|k: int|
        0 <= k < TRAP_FRAME_SIZE / 8 ==> (#[trigger] stack.word_at(sp + 8 * k)) is Some
}

/// What is at an offset from `sp`.
pub open spec fn word(stack: StackWords, sp: u64, offset: int) -> u64 {
    stack.word_at(sp + offset)->0
}

/// The registers that are restored when a trap is over, where the stack pointer is
/// `sp` and the register that holds the number of the hart is `tp`.
pub open spec fn restored(stack: StackWords, sp: u64, tp: u64) -> KernelRegisters {
    KernelRegisters {
        sp: (word(stack, sp, 0) + TRAP_FRAME_SIZE) as u64,
        gp: word(stack, sp, 8),
        tp,
        t0: word(stack, sp, 24),
        t1: word(stack, sp, 32),
        t2: word(stack, sp, 40),
        a0: word(stack, sp, 48),
        a1: word(stack, sp, 72),
        a2: word(stack, sp, 80),
        a3: word(stack, sp, 88),
        a4: word(stack, sp, 96),
        a5: word(stack, sp, 104),
        a6: word(stack, sp, 112),
        a7: word(stack, sp, 120),
        t3: word(stack, sp, 128),
        t4: word(stack, sp, 216),
        t5: word(stack, sp, 224),
        t6: word(stack, sp, 232),
        fp: word(stack, sp, 240),
        ra: word(stack, sp, 248),
    }
}

/// Takes a trap at `sepc`: saves the registers on the stack, and makes it appear as if
/// a function had been called from there. Returns the registers that the handler
/// starts with.
pub fn kernel_vec(regs: &KernelRegisters, sepc: u64, stack: &mut StackWords) -> (r:
    KernelRegisters)
    requires
        regs.sp >= TRAP_FRAME_SIZE,
        has_room(*old(stack), regs.sp - TRAP_FRAME_SIZE),
    ensures
        r == (KernelRegisters {
            sp: (regs.sp - TRAP_FRAME_SIZE) as u64,
            fp: regs.sp,
            a0: sepc,
            ..*regs
        }),
        forall|tp: u64| #[trigger]
            restored(*final(stack), (regs.sp - TRAP_FRAME_SIZE) as u64, tp) == (KernelRegisters {
                tp,
                ..*regs
            }),
        word(*final(stack), (regs.sp - TRAP_FRAME_SIZE) as u64, 0) == regs.sp - TRAP_FRAME_SIZE,
        final(stack).word_at(regs.sp - 8) == Some(sepc),
        final(stack).word_at(regs.sp - 16) == Some(regs.fp),
        forall|addr: int|
            !(regs.sp - TRAP_FRAME_SIZE <= addr < regs.sp) ==> #[trigger] final(stack).word_at(addr)
                == old(stack).word_at(addr),
        has_room(*final(stack), regs.sp - TRAP_FRAME_SIZE),
        trap_saved(*regs, sepc, *old(stack), *final(stack), r),
{
    let sp: u64 = regs.sp - TRAP_FRAME_SIZE;
    assert(forall|k: int|
        0 <= k < TRAP_FRAME_SIZE / 8 ==> (#[trigger] stack.word_at(sp + 8 * k)) is Some);
    save(stack, sp, 0, sp);
    save(stack, sp, 1, regs.gp);
    save(stack, sp, 2, regs.tp);
    save(stack, sp, 3, regs.t0);
    save(stack, sp, 4, regs.t1);
    save(stack, sp, 5, regs.t2);
    save(stack, sp, 6, regs.a0);
    save(stack, sp, 9, regs.a1);
    save(stack, sp, 10, regs.a2);
    save(stack, sp, 11, regs.a3);
    save(stack, sp, 12, regs.a4);
    save(stack, sp, 13, regs.a5);
    save(stack, sp, 14, regs.a6);
    save(stack, sp, 15, regs.a7);
    save(stack, sp, 16, regs.t3);
    save(stack, sp, 27, regs.t4);
    save(stack, sp, 28, regs.t5);
    save(stack, sp, 29, regs.t6);
    save(stack, sp, 30, regs.fp);
    save(stack, sp, 31, regs.ra);
    // a frame that looks like that of a function called from where the trap occurred
    save(stack, sp, 32, regs.fp);
    save(stack, sp, 33, sepc);
    KernelRegisters { sp, fp: regs.sp, a0: sepc, ..*regs }
}

/// Whether a trap at `sepc` has been taken.
pub open spec fn trap_saved(
    regs: KernelRegisters,
    sepc: u64,
    before: StackWords,
    after: StackWords,
    r: KernelRegisters,
) -> bool {
    let sp = (regs.sp - TRAP_FRAME_SIZE) as u64;
    &&& r == (KernelRegisters { sp, fp: regs.sp, a0: sepc, ..regs })
    &&& forall|tp: u64| #[trigger] restored(after, sp, tp) == (KernelRegisters { tp, ..regs })
    &&& after.word_at(regs.sp - 8) == Some(sepc)
    &&& after.word_at(regs.sp - 16) == Some(regs.fp)
    &&& forall|addr: int|
        !(sp <= addr < regs.sp) ==> #[trigger] after.word_at(addr) == before.word_at(addr)
}

/// Code that is interrupted by a trap finds all registers as they were when it goes on, but
/// for the one that holds the number of the hart; so long as the handler has not touched
/// what was saved. The handler begins with the stack below that of the code, which it leaves
/// as it is, and is told where the trap occurred.
pub proof fn law_trap_is_transparent(
    regs: KernelRegisters,
    sepc: u64,
    before: StackWords,
    saved: StackWords,
    entry: KernelRegisters,
    after: StackWords,
    tp: u64,
)
    requires
        regs.sp >= 272,
        trap_saved(regs, sepc, before, saved, entry),
        forall|addr: int|
            entry.sp <= addr < regs.sp ==> #[trigger] after.word_at(addr) == saved.word_at(addr),
    ensures
        ({
            let back = restored(after, entry.sp, tp);
            &&& back.ra == regs.ra
            &&& back.sp == regs.sp
            &&& back.gp == regs.gp
            &&& back.t0 == regs.t0
            &&& back.t1 == regs.t1
            &&& back.t2 == regs.t2
            &&& back.fp == regs.fp
            &&& back.a0 == regs.a0
            &&& back.a1 == regs.a1
            &&& back.a2 == regs.a2
            &&& back.a3 == regs.a3
            &&& back.a4 == regs.a4
            &&& back.a5 == regs.a5
            &&& back.a6 == regs.a6
            &&& back.a7 == regs.a7
            &&& back.t3 == regs.t3
            &&& back.t4 == regs.t4
            &&& back.t5 == regs.t5
            &&& back.t6 == regs.t6
            &&& back.tp == tp
        }),
        entry.sp == regs.sp - 272,
        entry.a0 == sepc,
        entry.fp == regs.sp,
        forall|addr: int| addr >= regs.sp ==> #[trigger] saved.word_at(addr) == before.word_at(addr),
{
    let back = restored(after, entry.sp, tp);
    assert(restored(saved, entry.sp, tp) == (KernelRegisters { tp, ..regs }));
    assert(back == restored(saved, entry.sp, tp));
}

/// Puts a word on the stack, at a place behind `sp`.
fn save(stack: &mut StackWords, sp: u64, place: u64, value: u64)
    requires
        place < TRAP_FRAME_SIZE / 8,
        sp + TRAP_FRAME_SIZE <= u64::MAX,
        has_room(*old(stack), sp as int),
    ensures
        has_room(*final(stack), sp as int),
        final(stack).word_at(sp + 8 * place) == Some(value),
        forall|addr: int|
            addr != sp + 8 * place ==> #[trigger] final(stack).word_at(addr) == old(stack).word_at(
                addr,
            ),
{
    assert(stack.word_at(sp + 8 * place) is Some);
    stack.write(sp + 8 * place, value);
}

/// Ends a trap: restores the registers from the stack. Returns them as they are when
/// the code goes on that was interrupted. The register that holds the number of the
/// hart stays as it is, in case the code has moved to another one.
pub fn kernel_vec_return(sp: u64, tp: u64, stack: &StackWords) -> (r: KernelRegisters)
    requires
        sp + TRAP_FRAME_SIZE <= u64::MAX,
        has_room(*stack, sp as int),
        word(*stack, sp, 0) + TRAP_FRAME_SIZE <= u64::MAX,
    ensures
        r == restored(*stack, sp, tp),
{
    KernelRegisters {
        sp: load(stack, sp, 0) + TRAP_FRAME_SIZE,
        gp: load(stack, sp, 1),
        tp,
        t0: load(stack, sp, 3),
        t1: load(stack, sp, 4),
        t2: load(stack, sp, 5),
        a0: load(stack, sp, 6),
        a1: load(stack, sp, 9),
        a2: load(stack, sp, 10),
        a3: load(stack, sp, 11),
        a4: load(stack, sp, 12),
        a5: load(stack, sp, 13),
        a6: load(stack, sp, 14),
        a7: load(stack, sp, 15),
        t3: load(stack, sp, 16),
        t4: load(stack, sp, 27),
        t5: load(stack, sp, 28),
        t6: load(stack, sp, 29),
        fp: load(stack, sp, 30),
        ra: load(stack, sp, 31),
    }
}

fn load(stack: &StackWords, sp: u64, place: u64) -> (r: u64)
    requires
        place < TRAP_FRAME_SIZE / 8,
        sp + TRAP_FRAME_SIZE <= u64::MAX,
        has_room(*stack, sp as int),
    ensures
        r == word(*stack, sp, 8 * place),
{
    assert(stack.word_at(sp + 8 * place) is Some);
    match stack.read(sp + 8 * place, 0) {
        Some(value) => value,
        None => 0,
    }
}

/// A backtrace from the handler of a trap goes on where the trap occurred, with the
/// frames that there were then.
pub proof fn law_backtrace_crosses_trap(
    stack: StackWords,
    regs: KernelRegisters,
    sepc: u64,
    depth: nat,
    most: nat,
)
    requires
        regs.sp >= TRAP_FRAME_SIZE,
        stack.word_at(regs.sp - 8) == Some(sepc),
        stack.word_at(regs.sp - 16) == Some(regs.fp),
        sepc != 0,
        depth < most,
    ensures
        ({
            let read = |addr: int| stack.word_at(addr);
            frames(read, regs.sp, depth, most) == seq![BacktraceLine::Addr(sepc)] + frames(
                read,
                regs.fp,
                depth + 1,
                most,
            )
        }),
{
}

} // verus!
