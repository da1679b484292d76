//! Traps: system calls, exceptions and interrupts.
use super::trampoline::user_vec_addr;
use super::{disable, enable, Hart};
use crate::bytes::{le_number, read_le_u64};
use crate::error::KernelError;
use crate::memory::addr::{VirtAddr, VA_MAX};
use crate::memory::layout::{
    E1000_IRQ, KSTACK_PAGES, TRAMPOLINE, UART0_IRQ, VIRTIO0_IRQ,
};
use crate::memory::page_manager::{PageManager, PagesView};
use crate::memory::page_table::entry::PtEntryFlags;
use crate::memory::page_table::range::translate;
use crate::memory::page_table::tree::{lemma_path_to_slot, same_region, Slot};
use crate::memory::page_table::writing::{
    chunk, copyable, in_ram, write_request, written_page, written_pages, WriteRequest,
};
use crate::memory::page_table::{satp_value, PageTable};
use crate::memory::vm_user::UserPageTable;
use crate::memory::{lemma_level_sizes, level_size, PAGE_SIZE};
use crate::proc::{AlarmInfo, ProcPrivateData, ProcSharedData, Uptime};
use riscv::interrupt::supervisor::{Exception as RiscvException, Interrupt as RiscvInterrupt};
use riscv::interrupt::Trap;
use riscv::register::scause::Scause;
use riscv::register::stvec::{Stvec, TrapMode};
use riscv::{ExceptionNumber, InterruptNumber};
use vstd::prelude::*;

verus! {

/// The registers of a process in user space.
#[derive(Debug, Clone, Copy, PartialEq, Eq, Structural)]
pub struct UserRegisters {
    pub ra: u64,
    pub sp: u64,
    pub gp: u64,
    pub tp: u64,
    pub t0: u64,
    pub t1: u64,
    pub t2: u64,
    pub s0: u64,
    pub s1: u64,
    pub a0: u64,
    pub a1: u64,
    pub a2: u64,
    pub a3: u64,
    pub a4: u64,
    pub a5: u64,
    pub a6: u64,
    pub a7: u64,
    pub s2: u64,
    pub s3: u64,
    pub s4: u64,
    pub s5: u64,
    pub s6: u64,
    pub s7: u64,
    pub s8: u64,
    pub s9: u64,
    pub s10: u64,
    pub s11: u64,
    pub t3: u64,
    pub t4: u64,
    pub t5: u64,
    pub t6: u64,
}

/// What is saved of a process when it enters the kernel, and what the code that
/// saves it needs.
#[derive(Debug, Clone, Copy, PartialEq, Eq, Structural)]
pub struct TrapFrame {
    /// Kernel page table.
    pub kernel_satp: u64,
    /// Top of process's kernel stack.
    pub kernel_sp: u64,
    /// Code that handles traps from user space.
    pub kernel_trap: u64,
    /// Saved user program counter.
    pub epc: u64,
    /// Number of the CPU.
    pub kernel_hartid: u64,
    pub user_registers: UserRegisters,
}

impl UserRegisters {
    /// All registers zero.
    pub open spec fn zero() -> Self {
        UserRegisters {
            ra: 0,
            sp: 0,
            gp: 0,
            tp: 0,
            t0: 0,
            t1: 0,
            t2: 0,
            s0: 0,
            s1: 0,
            a0: 0,
            a1: 0,
            a2: 0,
            a3: 0,
            a4: 0,
            a5: 0,
            a6: 0,
            a7: 0,
            s2: 0,
            s3: 0,
            s4: 0,
            s5: 0,
            s6: 0,
            s7: 0,
            s8: 0,
            s9: 0,
            s10: 0,
            s11: 0,
            t3: 0,
            t4: 0,
            t5: 0,
            t6: 0,
        }
    }

    /// All registers zero.
    pub fn new() -> (r: Self)
        ensures
            r == Self::zero(),
    {
        UserRegisters {
            ra: 0,
            sp: 0,
            gp: 0,
            tp: 0,
            t0: 0,
            t1: 0,
            t2: 0,
            s0: 0,
            s1: 0,
            a0: 0,
            a1: 0,
            a2: 0,
            a3: 0,
            a4: 0,
            a5: 0,
            a6: 0,
            a7: 0,
            s2: 0,
            s3: 0,
            s4: 0,
            s5: 0,
            s6: 0,
            s7: 0,
            s8: 0,
            s9: 0,
            s10: 0,
            s11: 0,
            t3: 0,
            t4: 0,
            t5: 0,
            t6: 0,
        }
    }
}

impl TrapFrame {
    /// All fields zero.
    pub open spec fn zero() -> Self {
        TrapFrame {
            kernel_satp: 0,
            kernel_sp: 0,
            kernel_trap: 0,
            epc: 0,
            kernel_hartid: 0,
            user_registers: UserRegisters::zero(),
        }
    }

    /// All fields zero.
    pub fn new() -> (r: Self)
        ensures
            r == Self::zero(),
    {
        TrapFrame {
            kernel_satp: 0,
            kernel_sp: 0,
            kernel_trap: 0,
            epc: 0,
            kernel_hartid: 0,
            user_registers: UserRegisters::new(),
        }
    }
}

/// Interrupts that the kernel gets.
#[derive(Debug, Clone, Copy, PartialEq, Eq, Structural)]
pub enum Interrupt {
    SupervisorSoft,
    SupervisorTimer,
    SupervisorExternal,
}

/// Exceptions that the kernel gets.
#[derive(Debug, Clone, Copy, PartialEq, Eq, Structural)]
pub enum Exception {
    InstructionMisaligned,
    InstructionFault,
    IllegalInstruction,
    Breakpoint,
    LoadMisaligned,
    LoadFault,
    StoreMisaligned,
    StoreFault,
    UserEnvCall,
    SupervisorEnvCall,
    InstructionPageFault,
    LoadPageFault,
    StorePageFault,
}

/// Why a trap has occurred.
#[derive(Debug, Clone, Copy, PartialEq, Eq, Structural)]
pub enum TrapCause {
    Interrupt(Interrupt),
    Exception(Exception),
}

/// The highest bit of the cause register: whether the cause is an interrupt.
pub const INTERRUPT_BIT: u64 = 0x8000_0000_0000_0000;

/// Whether a number is that of an interrupt of the supervisor.
pub open spec fn is_interrupt_number(n: u64) -> bool {
    n == 1 || n == 5 || n == 9
}

/// Whether a number is that of an exception of the supervisor.
pub open spec fn is_exception_number(n: u64) -> bool {
    n <= 9 || n == 12 || n == 13 || n == 15
}

/// What the cause register says: whether the cause is an interrupt, and its
/// number. Nothing, if there is no such cause.
pub open spec fn cause_parts(bits: u64) -> Option<(bool, u64)> {
    if bits >= INTERRUPT_BIT {
        let n = (bits - INTERRUPT_BIT) as u64;
        if is_interrupt_number(n) {
            Some((true, n))
        } else {
            None
        }
    } else if is_exception_number(bits) {
        Some((false, bits))
    } else {
        None
    }
}

/// Takes the value of the cause register apart, with [`Scause::cause`], and tells
/// by [`Trap::try_into`] whether there is such an interrupt or exception of the
/// supervisor.
///
/// The highest bit says which of the two it is, the other bits are its number.
/// There are interrupts with the numbers 1, 5 and 9, and exceptions with the
/// numbers 0 to 9, 12, 13 and 15.
#[verifier::external_body]
fn decode_cause(bits: u64) -> (r: Option<(bool, u64)>)
    ensures
        r == cause_parts(bits),
{
    let cause = Scause::from_bits(bits as usize).cause();
    match cause.try_into::<RiscvInterrupt, RiscvException>() {
        Ok(Trap::Interrupt(i)) => Some((true, InterruptNumber::number(i) as u64)),
        Ok(Trap::Exception(e)) => Some((false, ExceptionNumber::number(e) as u64)),
        Err(_) => None,
    }
}

/// The interrupt with a number.
pub open spec fn interrupt_of(n: u64) -> Interrupt {
    if n == 1 {
        Interrupt::SupervisorSoft
    } else if n == 5 {
        Interrupt::SupervisorTimer
    } else {
        Interrupt::SupervisorExternal
    }
}

/// The exception with a number.
pub open spec fn exception_of(n: u64) -> Exception {
    if n == 0 {
        Exception::InstructionMisaligned
    } else if n == 1 {
        Exception::InstructionFault
    } else if n == 2 {
        Exception::IllegalInstruction
    } else if n == 3 {
        Exception::Breakpoint
    } else if n == 4 {
        Exception::LoadMisaligned
    } else if n == 5 {
        Exception::LoadFault
    } else if n == 6 {
        Exception::StoreMisaligned
    } else if n == 7 {
        Exception::StoreFault
    } else if n == 8 {
        Exception::UserEnvCall
    } else if n == 9 {
        Exception::SupervisorEnvCall
    } else if n == 12 {
        Exception::InstructionPageFault
    } else if n == 13 {
        Exception::LoadPageFault
    } else {
        Exception::StorePageFault
    }
}

/// Why a trap has occurred, by the value of the cause register.
pub open spec fn trap_cause_spec(bits: u64) -> Option<TrapCause> {
    match cause_parts(bits) {
        Some((true, n)) => Some(TrapCause::Interrupt(interrupt_of(n))),
        Some((false, n)) => Some(TrapCause::Exception(exception_of(n))),
        None => None,
    }
}

/// Tells from the value of the cause register why a trap has occurred.
pub fn trap_cause(bits: u64) -> (r: Option<TrapCause>)
    ensures
        r == trap_cause_spec(bits),
{
    match decode_cause(bits) {
        None => None,
        Some((true, n)) => Some(
            TrapCause::Interrupt(
                if n == 1 {
                    Interrupt::SupervisorSoft
                } else if n == 5 {
                    Interrupt::SupervisorTimer
                } else {
                    Interrupt::SupervisorExternal
                },
            ),
        ),
        Some((false, n)) => Some(TrapCause::Exception(exception_with(n))),
    }
}

fn exception_with(n: u64) -> (r: Exception)
    ensures
        r == exception_of(n),
{
    match n {
        0 => Exception::InstructionMisaligned,
        1 => Exception::InstructionFault,
        2 => Exception::IllegalInstruction,
        3 => Exception::Breakpoint,
        4 => Exception::LoadMisaligned,
        5 => Exception::LoadFault,
        6 => Exception::StoreMisaligned,
        7 => Exception::StoreFault,
        8 => Exception::UserEnvCall,
        9 => Exception::SupervisorEnvCall,
        12 => Exception::InstructionPageFault,
        13 => Exception::LoadPageFault,
        _ => Exception::StorePageFault,
    }
}

/// Builds a value for the trap vector register with [`Stvec::set_address`] and
/// [`Stvec::set_trap_mode`], starting from zero.
///
/// The address must be a multiple of four. The mode, which is 0 for direct mode,
/// goes into the two bits that are free then.
#[verifier::external_body]
fn direct_vector(address: u64) -> (r: u64)
    requires
        address % 4 == 0,
    ensures
        r == address,
{
    let mut stvec = Stvec::from_bits(0);
    stvec.set_address(address as usize);
    stvec.set_trap_mode(TrapMode::Direct);
    stvec.bits() as u64
}

/// The value for the trap vector register that sends traps to the code for traps
/// in the kernel.
pub fn init_hart(kernel_vec: u64) -> (r: u64)
    requires
        kernel_vec % 4 == 0,
    ensures
        r == kernel_vec,
{
    direct_vector(kernel_vec)
}

/// What kind of interrupt it was.
#[derive(Debug, Clone, Copy, PartialEq, Eq, Structural)]
pub enum IntrKind {
    Timer,
    Other,
    InterProcessor,
    NotRecognized,
}

/// How an interrupt is handled.
#[derive(Debug, Clone, Copy, PartialEq, Eq, Structural)]
pub enum DevAction {
    /// Nothing is done about it.
    Ignore,
    /// The clock goes on.
    Tick,
    /// It was another CPU, and that is acknowledged.
    CompleteSoftware,
    /// The interrupt controller says which device it was.
    Claim,
}

/// Tells how an interrupt is handled, and what kind it is. `software_pending` says
/// whether another CPU has asked for attention.
pub fn handle_dev_interrupt(source: Interrupt, software_pending: bool) -> (r: (DevAction, IntrKind))
    ensures
        r == (match source {
            Interrupt::SupervisorSoft => (DevAction::Ignore, IntrKind::NotRecognized),
            Interrupt::SupervisorTimer => (DevAction::Tick, IntrKind::Timer),
            Interrupt::SupervisorExternal => if software_pending {
                (DevAction::CompleteSoftware, IntrKind::InterProcessor)
            } else {
                (DevAction::Claim, IntrKind::Other)
            },
        }),
        r == dev_action(source, software_pending),
{
    match source {
        Interrupt::SupervisorSoft => (DevAction::Ignore, IntrKind::NotRecognized),
        Interrupt::SupervisorTimer => (DevAction::Tick, IntrKind::Timer),
        Interrupt::SupervisorExternal => if software_pending {
            (DevAction::CompleteSoftware, IntrKind::InterProcessor)
        } else {
            (DevAction::Claim, IntrKind::Other)
        },
    }
}

/// How an interrupt is handled, and what kind it is.
pub open spec fn dev_action(source: Interrupt, software_pending: bool) -> (DevAction, IntrKind) {
    match source {
        Interrupt::SupervisorSoft => (DevAction::Ignore, IntrKind::NotRecognized),
        Interrupt::SupervisorTimer => (DevAction::Tick, IntrKind::Timer),
        Interrupt::SupervisorExternal => if software_pending {
            (DevAction::CompleteSoftware, IntrKind::InterProcessor)
        } else {
            (DevAction::Claim, IntrKind::Other)
        },
    }
}

/// The clock goes on with each interrupt of the timer, and with no other. The interrupt
/// controller is asked for a device just for those external interrupts that no other CPU
/// has asked for. One that is neither is not recognized, and nothing is done.
pub proof fn law_dev_action(source: Interrupt, software_pending: bool)
    ensures
        ({
            let (action, kind) = dev_action(source, software_pending);
            &&& action is Tick <==> source is SupervisorTimer
            &&& kind is Timer <==> source is SupervisorTimer
            &&& action is Claim <==> source is SupervisorExternal && !software_pending
            &&& kind is Other <==> action is Claim
            &&& action is CompleteSoftware <==> source is SupervisorExternal && software_pending
            &&& kind is InterProcessor <==> action is CompleteSoftware
            &&& kind is NotRecognized <==> action is Ignore
        }),
{
}

/// The device that an interrupt comes from.
#[derive(Debug, Clone, Copy, PartialEq, Eq, Structural)]
pub enum IrqSource {
    Uart,
    Disk,
    Network,
    /// None at all.
    Nothing,
    Unexpected(u32),
}

/// Tells which device an interrupt comes from that the interrupt controller has
/// given a number for, and whether the controller is to be told that it has been
/// handled: all but the number 0.
pub fn dispatch_irq(irq: u32) -> (r: (IrqSource, bool))
    ensures
        r.0 == (if irq == UART0_IRQ {
            IrqSource::Uart
        } else if irq == VIRTIO0_IRQ {
            IrqSource::Disk
        } else if irq == E1000_IRQ {
            IrqSource::Network
        } else if irq > 0 {
            IrqSource::Unexpected(irq)
        } else {
            IrqSource::Nothing
        }),
        r.1 == (irq > 0),
        r == irq_source(irq),
{
    let source: IrqSource = if irq == UART0_IRQ {
        IrqSource::Uart
    } else if irq == VIRTIO0_IRQ {
        IrqSource::Disk
    } else if irq == E1000_IRQ {
        IrqSource::Network
    } else if irq > 0 {
        IrqSource::Unexpected(irq)
    } else {
        IrqSource::Nothing
    };
    (source, irq > 0)
}

/// Which device an interrupt comes from that has a number, and whether the controller is to
/// be told that it has been handled.
pub open spec fn irq_source(irq: u32) -> (IrqSource, bool) {
    (
        if irq == UART0_IRQ {
            IrqSource::Uart
        } else if irq == VIRTIO0_IRQ {
            IrqSource::Disk
        } else if irq == E1000_IRQ {
            IrqSource::Network
        } else if irq > 0 {
            IrqSource::Unexpected(irq)
        } else {
            IrqSource::Nothing
        },
        irq > 0,
    )
}

/// The console has number 10, the disk 1 and the network device 33. The controller is told of
/// every interrupt that there was, of unexpected ones too.
pub proof fn law_irq_source(irq: u32)
    ensures
        irq_source(irq).0 is Uart <==> irq == 10,
        irq_source(irq).0 is Disk <==> irq == 1,
        irq_source(irq).0 is Network <==> irq == 33,
        irq_source(irq).0 is Nothing <==> irq == 0,
        irq_source(irq).0 matches IrqSource::Unexpected(n) ==> n == irq,
        irq_source(irq).1 <==> !(irq_source(irq).0 is Nothing),
{
}

/// The exit status of a process that has been killed.
pub const KILLED_STATUS: i32 = -1;

/// What is done about a trap from user space.
#[derive(Debug, Clone, Copy, PartialEq, Eq, Structural)]
pub enum UserTrapAction {
    /// The process exits with a status.
    Exit(i32),
    /// The system call is made, with interrupts enabled.
    Syscall,
    /// The process goes on.
    Resume,
    /// What it did is reported, and the process is killed.
    Kill,
    /// The interrupt is handled.
    Device(Interrupt),
}

/// Whether an address of a process can be made one to write to.
pub open spec fn can_write(pt: PageTable, v: PagesView, addr: u64) -> bool {
    &&& addr <= VA_MAX
    &&& pt.slot_at(addr as nat).leaf matches Some(leaf)
    &&& !(write_request(leaf, v) is Refused)
    &&& !(write_request(leaf, v) is NoMemory)
}

/// What is done about a trap from user space.
pub open spec fn user_trap_action(cause: TrapCause, killed: bool, writable: bool) -> UserTrapAction {
    match cause {
        TrapCause::Exception(Exception::UserEnvCall) => if killed {
            UserTrapAction::Exit(KILLED_STATUS)
        } else {
            UserTrapAction::Syscall
        },
        TrapCause::Exception(Exception::StorePageFault) => if writable {
            UserTrapAction::Resume
        } else {
            UserTrapAction::Kill
        },
        TrapCause::Exception(_) => UserTrapAction::Kill,
        TrapCause::Interrupt(source) => UserTrapAction::Device(source),
    }
}

/// Whether a trap is a write to a page that is mapped.
pub open spec fn is_write_fault(cause: TrapCause, pt: PageTable, addr: u64) -> bool {
    &&& cause == TrapCause::Exception(Exception::StorePageFault)
    &&& addr <= VA_MAX
    &&& pt.slot_at(addr as nat).leaf is Some
}

/// The bit of the status register that says that a trap came from supervisor mode.
pub const STATUS_SPP: u64 = 0x100;

/// The bit of the status register that says that interrupts are enabled again when a
/// trap is over.
pub const STATUS_SPIE: u64 = 0x20;

/// Whether a trap came from supervisor mode, going by the status register.
pub open spec fn from_supervisor(sstatus: u64) -> bool {
    sstatus & STATUS_SPP != 0
}

/// Tells whether a trap came from supervisor mode, going by the status register.
pub fn is_from_supervisor(sstatus: u64) -> (r: bool)
    ensures
        r == from_supervisor(sstatus),
{
    sstatus & STATUS_SPP != 0
}

/// The registers that tell of a trap.
#[derive(Debug, Clone, Copy, PartialEq, Eq, Structural)]
pub struct TrapRegisters {
    /// The status register.
    pub sstatus: u64,
    /// Where the trap occurred.
    pub sepc: u64,
    /// The address that the trap is about, if it is about one.
    pub stval: u64,
}

/// What follows a trap from user space.
#[derive(Debug, Clone, Copy, PartialEq, Eq, Structural)]
pub struct UserTrap {
    /// The value for the trap vector register: traps are now those of the kernel.
    pub stvec: u64,
    pub action: UserTrapAction,
}

/// Takes a trap from user space: saves the program counter, and tells what is to be
/// done. A write to a page that is to be copied first is dealt with at once.
/// `kernel_vec` is the code that takes traps in the kernel.
pub fn trap_user(
    private: &mut ProcPrivateData,
    cause: TrapCause,
    regs: &TrapRegisters,
    kernel_vec: u64,
    killed: bool,
    hart: &mut Hart,
    manager: &mut PageManager,
) -> (r: UserTrap)
    requires
        old(manager).wf(),
        old(private).pagetable.pt.wf(old(manager)@),
        !from_supervisor(regs.sstatus),
        kernel_vec % 4 == 0,
        cause == TrapCause::Exception(Exception::UserEnvCall) && !killed ==> regs.sepc + 4
            <= u64::MAX,
        cause == TrapCause::Exception(Exception::StorePageFault) && regs.stval <= VA_MAX ==> copyable(
            old(private).pagetable.pt.slot_at(regs.stval as nat),
            old(manager)@,
        ),
    ensures
        final(manager).wf(),
        final(private).pagetable.pt.wf(final(manager)@),
        r.stvec == kernel_vec,
        r.action == user_trap_action(
            cause,
            killed,
            can_write(old(private).pagetable.pt, old(manager)@, regs.stval),
        ),
        *final(hart) == (Hart {
            sie: old(hart).sie || r.action == UserTrapAction::Syscall,
            ..*old(hart)
        }),
        final(private).pagetable.trapframe == (TrapFrame {
            epc: if r.action == UserTrapAction::Syscall {
                (regs.sepc + 4) as u64
            } else {
                regs.sepc
            },
            ..old(private).pagetable.trapframe
        }),
        final(private).same_but_files(
            ProcPrivateData {
                pagetable: final(private).pagetable,
                ..*old(private)
            },
        ),
        final(private).ofile == old(private).ofile,
        final(private).pagetable.program_break == old(private).pagetable.program_break,
        !is_write_fault(cause, old(private).pagetable.pt, regs.stval) ==> {
            &&& final(private).pagetable.pt == old(private).pagetable.pt
            &&& final(manager)@ == old(manager)@
        },
        is_write_fault(cause, old(private).pagetable.pt, regs.stval) ==> {
            let pt = old(private).pagetable.pt;
            let at = pt.slot_at(regs.stval as nat);
            let page = written_page(at.leaf->0, old(manager)@);
            &&& final(manager)@ == written_pages(at.leaf->0, old(manager)@)
            &&& forall|x: nat|
                x <= VA_MAX ==> #[trigger] final(private).pagetable.pt.slot_at(x) == (
                if same_region(x, regs.stval as nat, at.level) {
                    Slot { level: at.level, leaf: Some(page) }
                } else {
                    pt.slot_at(x)
                })
        },
        trap_taken(
            *old(private),
            old(manager)@,
            cause,
            *regs,
            kernel_vec,
            killed,
            *old(hart),
            *final(private),
            final(manager)@,
            *final(hart),
            r,
        ),
{
    let stvec: u64 = init_hart(kernel_vec);
    // save user program counter
    private.pagetable.trapframe.epc = regs.sepc;
    let action: UserTrapAction = match cause {
        TrapCause::Exception(Exception::UserEnvCall) => {
            if killed {
                UserTrapAction::Exit(KILLED_STATUS)
            } else {
                // the program counter is that of the instruction that makes the
                // call, but the process is to go on with the next one
                private.pagetable.trapframe.epc = regs.sepc + 4;
                enable(hart);
                UserTrapAction::Syscall
            }
        },
        TrapCause::Exception(Exception::StorePageFault) => match request_user_write(
            private,
            regs.stval,
            manager,
        ) {
            Ok(_) => UserTrapAction::Resume,
            Err(_) => UserTrapAction::Kill,
        },
        TrapCause::Exception(_) => UserTrapAction::Kill,
        TrapCause::Interrupt(source) => UserTrapAction::Device(source),
    };
    UserTrap { stvec, action }
}

/// Whether a trap from user space has been taken, as far as registers go.
pub open spec fn trap_taken(
    before: ProcPrivateData,
    v: PagesView,
    cause: TrapCause,
    regs: TrapRegisters,
    kernel_vec: u64,
    killed: bool,
    hart: Hart,
    after: ProcPrivateData,
    w: PagesView,
    then: Hart,
    r: UserTrap,
) -> bool {
    &&& r.stvec == kernel_vec
    &&& r.action == user_trap_action(
        cause,
        killed,
        can_write(before.pagetable.pt, v, regs.stval),
    )
    &&& then == (Hart { sie: hart.sie || r.action == UserTrapAction::Syscall, ..hart })
    &&& after.pagetable.trapframe == (TrapFrame {
        epc: if r.action == UserTrapAction::Syscall {
            (regs.sepc + 4) as u64
        } else {
            regs.sepc
        },
        ..before.pagetable.trapframe
    })
    &&& after.kstack == before.kstack
    &&& !is_write_fault(cause, before.pagetable.pt, regs.stval) ==> after.pagetable.pt
        == before.pagetable.pt && w == v
}

/// Makes the page at an address one that the process can write to.
pub fn request_user_write(private: &mut ProcPrivateData, addr: u64, manager: &mut PageManager) -> (r:
    Result<(), KernelError>)
    requires
        old(manager).wf(),
        old(private).pagetable.pt.wf(old(manager)@),
        addr <= VA_MAX ==> copyable(old(private).pagetable.pt.slot_at(addr as nat), old(manager)@),
    ensures
        final(manager).wf(),
        final(private).pagetable.pt.wf(final(manager)@),
        *final(private) == (ProcPrivateData {
            pagetable: final(private).pagetable,
            ..*old(private)
        }),
        final(private).pagetable.program_break == old(private).pagetable.program_break,
        final(private).pagetable.trapframe == old(private).pagetable.trapframe,
        addr > VA_MAX ==> r == Err::<(), KernelError>(KernelError::TooLargeVirtualAddress(addr)),
        addr <= VA_MAX && old(private).pagetable.pt.slot_at(addr as nat).leaf is None ==> r == Err::<
            (),
            KernelError,
        >(KernelError::VirtualPageNotMapped(VirtAddr(addr))),
        addr <= VA_MAX && old(private).pagetable.pt.slot_at(addr as nat).leaf is Some ==> r == (
        match write_request(
            old(private).pagetable.pt.slot_at(addr as nat).leaf->0,
            old(manager)@,
        ) {
            WriteRequest::Refused => Err::<(), KernelError>(
                KernelError::InaccessiblePage(VirtAddr(addr)),
            ),
            WriteRequest::NoMemory => Err(KernelError::NoFreePage),
            _ => Ok(()),
        }),
        addr > VA_MAX || old(private).pagetable.pt.slot_at(addr as nat).leaf is None ==> {
            &&& final(private).pagetable == old(private).pagetable
            &&& final(manager)@ == old(manager)@
        },
        addr <= VA_MAX && old(private).pagetable.pt.slot_at(addr as nat).leaf is Some ==> {
            let pt = old(private).pagetable.pt;
            let at = pt.slot_at(addr as nat);
            let page = written_page(at.leaf->0, old(manager)@);
            &&& final(manager)@ == written_pages(at.leaf->0, old(manager)@)
            &&& forall|x: nat|
                x <= VA_MAX ==> #[trigger] final(private).pagetable.pt.slot_at(x) == (
                if same_region(x, addr as nat, at.level) {
                    Slot { level: at.level, leaf: Some(page) }
                } else {
                    pt.slot_at(x)
                })
        },
{
    let va: VirtAddr = match VirtAddr::new(addr) {
        Ok(va) => va,
        Err(e) => {
            return Err(e);
        },
    };
    private.pagetable.pt.request_user_write(va, manager)
}

/// What has become of a trap from user space.
#[derive(Debug, Clone, Copy, PartialEq, Eq, Structural)]
pub enum TrapOutcome {
    /// It has been dealt with.
    Handled,
    /// The process did something that it must not.
    Fault,
    /// It was an interrupt of this kind.
    Device(IntrKind),
}

/// How a process leaves the kernel.
#[derive(Debug, Clone, Copy, PartialEq, Eq, Structural)]
pub enum UserReturn {
    /// It exits with a status.
    Exit(i32),
    /// It gives up the CPU first, then returns to user space.
    Yield,
    /// It returns to user space.
    Return,
}

/// Whether a trap costs a process its life.
pub open spec fn is_fatal(outcome: TrapOutcome) -> bool {
    outcome == TrapOutcome::Fault || outcome == TrapOutcome::Device(IntrKind::NotRecognized)
}

/// Ends a trap from user space: a process that is killed exits; one whose alarm
/// has gone off is sent to its handler; and after a timer interrupt others get
/// their turn.
pub fn finish_trap_user(
    shared: &mut ProcSharedData,
    private: &mut ProcPrivateData,
    outcome: TrapOutcome,
    now: Uptime,
) -> (r: UserReturn)
    ensures
        r == (if old(shared).killed || is_fatal(outcome) {
            UserReturn::Exit(KILLED_STATUS)
        } else if outcome == TrapOutcome::Device(IntrKind::Timer) {
            UserReturn::Yield
        } else {
            UserReturn::Return
        }),
        final(shared).killed == (old(shared).killed || is_fatal(outcome)),
        ({
            let rings = !final(shared).killed && old(shared).alarm is Some && now.0 >= old(
                shared,
            ).alarm->0.time.0;
            &&& *final(shared) == (ProcSharedData {
                killed: final(shared).killed,
                alarm: if rings {
                    Some(
                        AlarmInfo {
                            time: now.plus(old(shared).alarm->0.dur),
                            ..old(shared).alarm->0
                        },
                    )
                } else {
                    old(shared).alarm
                },
                ..*old(shared)
            })
            &&& *final(private) == (if rings {
                old(private).interrupted(old(shared).alarm->0.handler)
            } else {
                *old(private)
            })
        }),
        trap_finished(
            *old(shared),
            *old(private),
            outcome,
            now,
            *final(shared),
            *final(private),
            r,
        ),
{
    match outcome {
        TrapOutcome::Fault | TrapOutcome::Device(IntrKind::NotRecognized) => {
            shared.kill();
        },
        _ => {},
    }
    if shared.killed() {
        return UserReturn::Exit(KILLED_STATUS);
    }
    match shared.alarm {
        Some(alarm) => {
            let mut alarm: AlarmInfo = alarm;
            if alarm.is_expired(now) {
                alarm.update(now);
                private.enter_signal_handler(alarm.handler());
                shared.alarm = Some(alarm);
            }
        },
        None => {},
    }
    match outcome {
        TrapOutcome::Device(IntrKind::Timer) => UserReturn::Yield,
        _ => UserReturn::Return,
    }
}

/// Whether a trap from user space has been ended.
pub open spec fn trap_finished(
    shared: ProcSharedData,
    private: ProcPrivateData,
    outcome: TrapOutcome,
    now: Uptime,
    then_shared: ProcSharedData,
    then_private: ProcPrivateData,
    r: UserReturn,
) -> bool {
    let killed = shared.killed || is_fatal(outcome);
    let rings = !killed && shared.alarm is Some && now.0 >= shared.alarm->0.time.0;
    &&& r == (if killed {
        UserReturn::Exit(KILLED_STATUS)
    } else if outcome == TrapOutcome::Device(IntrKind::Timer) {
        UserReturn::Yield
    } else {
        UserReturn::Return
    })
    &&& then_shared == (ProcSharedData {
        killed,
        alarm: if rings {
            Some(AlarmInfo { time: now.plus(shared.alarm->0.dur), ..shared.alarm->0 })
        } else {
            shared.alarm
        },
        ..shared
    })
    &&& then_private == (if rings {
        private.interrupted(shared.alarm->0.handler)
    } else {
        private
    })
}

/// A process exits with status -1 at the end of a trap if and only if it has been killed
/// before or the trap was its own fault or an interrupt that nobody knows. Otherwise it
/// goes on, after the others have had their turn if it was the clock that interrupted it.
pub proof fn law_trap_end(
    shared: ProcSharedData,
    private: ProcPrivateData,
    outcome: TrapOutcome,
    now: Uptime,
    then_shared: ProcSharedData,
    then_private: ProcPrivateData,
    r: UserReturn,
)
    requires
        trap_finished(shared, private, outcome, now, then_shared, then_private, r),
    ensures
        ({
            let dies = shared.killed || outcome is Fault || (outcome matches TrapOutcome::Device(
                kind,
            ) && kind is NotRecognized);
            &&& dies ==> r is Exit && r->Exit_0 == -1 && then_shared.killed && then_private == private
                && then_shared.alarm == shared.alarm
            &&& !dies ==> !(r is Exit) && !then_shared.killed
            &&& r is Yield <==> !dies && (outcome matches TrapOutcome::Device(kind) && kind
                is Timer)
        }),
        then_shared.pid == shared.pid,
        then_shared.state == shared.state,
        then_shared.name == shared.name,
        then_shared.context == shared.context,
{
}

/// An alarm goes off at the end of a trap as soon as its time has come, and not before: the
/// process then goes on in its handler, unless it is in one, and the alarm is set again, as
/// long after now as it was to be.
pub proof fn law_alarm(
    shared: ProcSharedData,
    private: ProcPrivateData,
    outcome: TrapOutcome,
    now: Uptime,
    then_shared: ProcSharedData,
    then_private: ProcPrivateData,
    r: UserReturn,
)
    requires
        trap_finished(shared, private, outcome, now, then_shared, then_private, r),
        !(r is Exit),
    ensures
        shared.alarm is None ==> then_private == private && then_shared.alarm is None,
        shared.alarm matches Some(alarm) ==> {
            &&& now.0 < alarm.time.0 ==> then_private == private && then_shared.alarm == Some(alarm)
            &&& now.0 >= alarm.time.0 ==> {
                &&& then_shared.alarm is Some
                &&& then_shared.alarm->0.dur == alarm.dur
                &&& then_shared.alarm->0.handler == alarm.handler
                &&& now.0 + alarm.dur <= u64::MAX ==> then_shared.alarm->0.time.0 == now.0
                    + alarm.dur
                &&& private.signal_handler_state is None
                    ==> then_private.pagetable.trapframe.epc == alarm.handler.0
                &&& private.signal_handler_state is Some ==> then_private == private
                &&& then_private.pagetable.trapframe.user_registers
                    == private.pagetable.trapframe.user_registers
            }
        },
{
}

/// What is written to the registers of the CPU for a return to user space.
#[derive(Debug, Clone, Copy, PartialEq, Eq, Structural)]
pub struct ReturnRegisters {
    /// Trap vector
    pub stvec: u64,
    /// Program counter
    pub sepc: u64,
    /// Page table
    pub satp: u64,
    /// Status
    pub sstatus: u64,
}

/// What a return to user space needs to know of the kernel.
#[derive(Debug, Clone, Copy, PartialEq, Eq, Structural)]
pub struct KernelPart {
    /// The page table of the kernel.
    pub satp: u64,
    /// The code that handles traps from user space.
    pub trap_user: u64,
    /// The number of the CPU.
    pub hartid: u64,
    /// The code of the trampoline page that takes traps from user space.
    pub user_vec: u64,
    /// The trampoline page.
    pub trampoline: u64,
    /// The status register.
    pub sstatus: u64,
}

/// A status register with which a trap ends in user mode and with interrupts enabled.
pub open spec fn user_status(sstatus: u64) -> u64 {
    (sstatus & !STATUS_SPP) | STATUS_SPIE
}

/// With that status a trap ends in user mode, and enables interrupts; all else in the
/// status stays as it is.
pub proof fn law_user_status(sstatus: u64)
    ensures
        !from_supervisor(user_status(sstatus)),
        user_status(sstatus) & STATUS_SPIE != 0,
        user_status(sstatus) & !(STATUS_SPP | STATUS_SPIE) == sstatus & !(STATUS_SPP | STATUS_SPIE),
{
    let s = user_status(sstatus);
    assert(s & 0x100 == 0 && s & 0x20 != 0 && s & !(0x100u64 | 0x20u64) == sstatus & !(0x100u64
        | 0x20u64)) by (bit_vector)
        requires
            s == (sstatus & !0x100u64) | 0x20u64,
    ;
}

/// Prepares the return to user space: fills in what the trap frame must hold when
/// the process next enters the kernel, and tells what goes into the registers.
/// Interrupts are off from then on until it is in user space.
pub fn trap_user_ret(private: &mut ProcPrivateData, kernel: &KernelPart, hart: &mut Hart) -> (r:
    ReturnRegisters)
    requires
        kernel.trampoline <= kernel.user_vec,
        kernel.user_vec - kernel.trampoline < PAGE_SIZE,
        (kernel.user_vec - kernel.trampoline) % 4 == 0,
        old(private).kstack.0 + KSTACK_PAGES * PAGE_SIZE <= VA_MAX,
    ensures
        *final(private) == old(private).with_trapframe(
            TrapFrame {
                kernel_satp: kernel.satp,
                kernel_sp: (old(private).kstack.0 + KSTACK_PAGES * PAGE_SIZE) as u64,
                kernel_trap: kernel.trap_user,
                kernel_hartid: kernel.hartid,
                ..old(private).pagetable.trapframe
            },
        ),
        r.stvec == TRAMPOLINE + (kernel.user_vec - kernel.trampoline),
        r.sepc == old(private).pagetable.trapframe.epc,
        r.satp == satp_value((old(private).pagetable.pt.0.pa.0 / PAGE_SIZE) as nat),
        r.sstatus == user_status(kernel.sstatus),
        *final(hart) == (Hart { sie: false, ..*old(hart) }),
        returning(*old(private), *kernel, *final(private), r),
{
    disable(hart);
    let vector: VirtAddr = user_vec_addr(kernel.user_vec, kernel.trampoline);
    let stvec: u64 = direct_vector(vector.addr());
    private.pagetable.trapframe.kernel_satp = kernel.satp;
    private.pagetable.trapframe.kernel_sp = private.kstack.addr() + KSTACK_PAGES * PAGE_SIZE;
    private.pagetable.trapframe.kernel_trap = kernel.trap_user;
    private.pagetable.trapframe.kernel_hartid = kernel.hartid;
    let sepc: u64 = private.pagetable.trapframe.epc;
    let satp: u64 = private.pagetable.pt.satp();
    let sstatus: u64 = (kernel.sstatus & !STATUS_SPP) | STATUS_SPIE;
    ReturnRegisters { stvec, sepc, satp, sstatus }
}

/// Whether a return to user space has been prepared.
pub open spec fn returning(
    before: ProcPrivateData,
    kernel: KernelPart,
    after: ProcPrivateData,
    r: ReturnRegisters,
) -> bool {
    &&& after == before.with_trapframe(
        TrapFrame {
            kernel_satp: kernel.satp,
            kernel_sp: (before.kstack.0 + KSTACK_PAGES * PAGE_SIZE) as u64,
            kernel_trap: kernel.trap_user,
            kernel_hartid: kernel.hartid,
            ..before.pagetable.trapframe
        },
    )
    &&& r.stvec == TRAMPOLINE + (kernel.user_vec - kernel.trampoline)
    &&& r.sepc == before.pagetable.trapframe.epc
    &&& r.satp == satp_value((before.pagetable.pt.0.pa.0 / PAGE_SIZE) as nat)
    &&& r.sstatus == user_status(kernel.sstatus)
}

/// A process that returns to user space after a trap goes on where it was, or behind the
/// instruction if that was a system call, with the registers that it had and on its own
/// page table. When it enters the kernel again, it finds the stack and the code that the
/// kernel has set up.
pub proof fn law_trap_and_return(
    before: ProcPrivateData,
    v: PagesView,
    cause: TrapCause,
    regs: TrapRegisters,
    kernel_vec: u64,
    killed: bool,
    hart: Hart,
    during: ProcPrivateData,
    w: PagesView,
    then: Hart,
    trap: UserTrap,
    kernel: KernelPart,
    after: ProcPrivateData,
    r: ReturnRegisters,
)
    requires
        trap_taken(before, v, cause, regs, kernel_vec, killed, hart, during, w, then, trap),
        regs.sepc + 4 <= u64::MAX,
        before.kstack.0 + 4096 * KSTACK_PAGES <= u64::MAX,
        returning(during, kernel, after, r),
    ensures
        trap.stvec == kernel_vec,
        trap.action is Syscall ==> r.sepc == regs.sepc + 4 && then.sie,
        !(trap.action is Syscall) ==> r.sepc == regs.sepc && then.sie == hart.sie,
        after.pagetable.trapframe.user_registers == before.pagetable.trapframe.user_registers,
        after.pagetable.trapframe.kernel_satp == kernel.satp,
        after.pagetable.trapframe.kernel_sp == before.kstack.0 + 4096 * KSTACK_PAGES,
        after.pagetable.trapframe.kernel_trap == kernel.trap_user,
        after.pagetable.trapframe.kernel_hartid == kernel.hartid,
        after.pagetable.pt == during.pagetable.pt,
        r.satp == 0x8000_0000_0000_0000 + (during.pagetable.pt.0.pa.0 / 4096)
            % 0x1000_0000_0000,
        r.stvec - TRAMPOLINE == kernel.user_vec - kernel.trampoline,
        !from_supervisor(r.sstatus),
{
    law_user_status(kernel.sstatus);
}

/// What is done about a trap from user space: a system call is made, unless the process has
/// been killed, which then exits with status -1; a write to a page that can be made one to
/// write to is done again; interrupts are those of devices; and for all else the process
/// is killed.
pub proof fn law_user_trap_action(cause: TrapCause, killed: bool, writable: bool)
    ensures
        ({
            let action = user_trap_action(cause, killed, writable);
            &&& action is Syscall <==> cause == TrapCause::Exception(Exception::UserEnvCall)
                && !killed
            &&& action is Exit <==> cause == TrapCause::Exception(Exception::UserEnvCall) && killed
            &&& action is Exit ==> action->Exit_0 == -1
            &&& action is Resume <==> cause == TrapCause::Exception(Exception::StorePageFault)
                && writable
            &&& action is Device <==> cause is Interrupt
            &&& cause matches TrapCause::Interrupt(source) ==> action == UserTrapAction::Device(
                source,
            )
            &&& cause is Exception && cause != TrapCause::Exception(Exception::UserEnvCall) && !(
            cause == TrapCause::Exception(Exception::StorePageFault) && writable) ==> action is Kill
        }),
{
}

/// A process can go on with a write if the page is mapped and is writable, or is to be
/// copied on the next write and either nobody else uses it or a page is free for the copy.
pub proof fn law_can_write(pt: PageTable, v: PagesView, addr: u64)
    ensures
        addr > VA_MAX ==> !can_write(pt, v, addr),
        addr <= VA_MAX ==> (can_write(pt, v, addr) <==> match pt.slot_at(addr as nat).leaf {
            None => false,
            Some(page) => page.flags.w || page.flags.c && (v.count(page.pa.0 as nat) == 1
                || v.free.len() > 0),
        }),
{
}

/// The value of the cause register for a cause: the number of the interrupt, with the
/// highest bit set, or that of the exception.
pub open spec fn cause_number(cause: TrapCause) -> u64 {
    match cause {
        TrapCause::Interrupt(Interrupt::SupervisorSoft) => 0x8000_0000_0000_0001,
        TrapCause::Interrupt(Interrupt::SupervisorTimer) => 0x8000_0000_0000_0005,
        TrapCause::Interrupt(Interrupt::SupervisorExternal) => 0x8000_0000_0000_0009,
        TrapCause::Exception(Exception::InstructionMisaligned) => 0,
        TrapCause::Exception(Exception::InstructionFault) => 1,
        TrapCause::Exception(Exception::IllegalInstruction) => 2,
        TrapCause::Exception(Exception::Breakpoint) => 3,
        TrapCause::Exception(Exception::LoadMisaligned) => 4,
        TrapCause::Exception(Exception::LoadFault) => 5,
        TrapCause::Exception(Exception::StoreMisaligned) => 6,
        TrapCause::Exception(Exception::StoreFault) => 7,
        TrapCause::Exception(Exception::UserEnvCall) => 8,
        TrapCause::Exception(Exception::SupervisorEnvCall) => 9,
        TrapCause::Exception(Exception::InstructionPageFault) => 12,
        TrapCause::Exception(Exception::LoadPageFault) => 13,
        TrapCause::Exception(Exception::StorePageFault) => 15,
    }
}

/// Each cause is told from its number in the cause register, and no other number tells of
/// one.
pub proof fn law_trap_cause(cause: TrapCause, bits: u64)
    ensures
        trap_cause_spec(cause_number(cause)) == Some(cause),
        trap_cause_spec(bits) == Some(cause) ==> bits == cause_number(cause),
{
}

/// The registers that a trap in the kernel must leave as they are.
#[derive(Debug, Clone, Copy, PartialEq, Eq, Structural)]
pub struct SavedRegisters {
    /// Where the trap occurred.
    pub sepc: u64,
    /// The status register.
    pub sstatus: u64,
}

/// What is done about a trap in the kernel.
#[derive(Debug, Clone, Copy, PartialEq, Eq, Structural)]
pub enum KernelTrapAction {
    /// The interrupt is handled.
    Device(Interrupt),
    /// The process gives up the CPU; then the kernel goes on, with these registers
    /// written back, as giving up the CPU may have changed them.
    Yield(SavedRegisters),
    /// The kernel goes on, with these registers written back.
    Resume(SavedRegisters),
    /// It must not happen, so the kernel stops.
    Panic,
}

/// Takes a trap in the kernel, where interrupts are off.
pub fn trap_kernel(cause: TrapCause, saved: &SavedRegisters, hart: &Hart) -> (r: KernelTrapAction)
    requires
        from_supervisor(saved.sstatus),
        !hart.sie,
    ensures
        r == (match cause {
            TrapCause::Exception(_) => KernelTrapAction::Panic,
            TrapCause::Interrupt(source) => KernelTrapAction::Device(source),
        }),
{
    match cause {
        TrapCause::Exception(_) => KernelTrapAction::Panic,
        TrapCause::Interrupt(source) => KernelTrapAction::Device(source),
    }
}

/// Ends a trap in the kernel that was an interrupt of the given kind.
/// `has_process` says whether the CPU was running one, and `saved` holds the registers
/// as they were when the trap occurred.
pub fn finish_trap_kernel(which_dev: IntrKind, has_process: bool, saved: SavedRegisters) -> (r:
    KernelTrapAction)
    ensures
        r == (match which_dev {
            IntrKind::Timer => if has_process {
                KernelTrapAction::Yield(saved)
            } else {
                KernelTrapAction::Resume(saved)
            },
            IntrKind::InterProcessor | IntrKind::Other => KernelTrapAction::Resume(saved),
            IntrKind::NotRecognized => KernelTrapAction::Panic,
        }),
        r == kernel_trap_end(which_dev, has_process, saved),
{
    match which_dev {
        IntrKind::Timer => if has_process {
            KernelTrapAction::Yield(saved)
        } else {
            KernelTrapAction::Resume(saved)
        },
        IntrKind::InterProcessor | IntrKind::Other => KernelTrapAction::Resume(saved),
        IntrKind::NotRecognized => KernelTrapAction::Panic,
    }
}

/// How a trap in the kernel ends that was an interrupt of the given kind.
pub open spec fn kernel_trap_end(
    which_dev: IntrKind,
    has_process: bool,
    saved: SavedRegisters,
) -> KernelTrapAction {
    match which_dev {
        IntrKind::Timer => if has_process {
            KernelTrapAction::Yield(saved)
        } else {
            KernelTrapAction::Resume(saved)
        },
        IntrKind::InterProcessor | IntrKind::Other => KernelTrapAction::Resume(saved),
        IntrKind::NotRecognized => KernelTrapAction::Panic,
    }
}

/// The kernel goes on after each interrupt that it knows, with the registers that it was
/// interrupted with. A process gives up the CPU first if and only if it was the clock.
pub proof fn law_kernel_trap_end(which_dev: IntrKind, has_process: bool, saved: SavedRegisters)
    ensures
        ({
            let action = kernel_trap_end(which_dev, has_process, saved);
            &&& action is Panic <==> which_dev is NotRecognized
            &&& action is Yield <==> which_dev is Timer && has_process
            &&& !(action is Device)
            &&& action matches KernelTrapAction::Resume(regs) ==> regs == saved
            &&& action matches KernelTrapAction::Yield(regs) ==> regs == saved
        }),
{
}

/// Whether everything that a process can read and write is main memory.
pub open spec fn user_memory_in_ram(pt: PageTable, v: PagesView) -> bool {
    forall|x: nat|
        x <= VA_MAX ==> {
            let at = #[trigger] pt.slot_at(x);
            at.leaf matches Some(leaf) ==> leaf.flags.has(PtEntryFlags::urw_spec()) ==> in_ram(
                leaf,
                at.level,
                v,
            )
        }
}

/// The word that a process has at an address, if it can read and write there and
/// the address is a multiple of eight.
pub open spec fn user_word(pt: PageTable, v: PagesView, addr: int) -> Option<u64> {
    if addr < 0 || addr > VA_MAX || addr % 8 != 0 {
        None
    } else {
        let at = pt.slot_at(addr as nat);
        match at.leaf {
            Some(leaf) if leaf.flags.has(PtEntryFlags::urw_spec()) => {
                let bytes = chunk(at, addr as nat, v);
                if bytes.len() < 8 {
                    None
                } else {
                    Some(le_number(bytes.subrange(0, 8)) as u64)
                }
            },
            _ => None,
        }
    }
}

/// Reads a word from the memory of a process.
pub fn fetch_usize(addr: u64, pt: &UserPageTable, manager: &PageManager) -> (r: Option<u64>)
    requires
        manager.wf(),
        pt.pt.wf(manager@),
        user_memory_in_ram(pt.pt, manager@),
    ensures
        r == user_word(pt.pt, manager@, addr as int),
{
    if addr % 8 != 0 {
        return None;
    }
    let va: VirtAddr = match VirtAddr::new(addr) {
        Ok(va) => va,
        Err(_) => {
            return None;
        },
    };
    let data: &[u8] = match pt.pt.fetch_chunk(va, PtEntryFlags::urw(), manager) {
        Ok(data) => data,
        Err(_) => {
            return None;
        },
    };
    if data.len() < 8 {
        return None;
    }
    Some(read_le_u64(data, 0))
}

/// A line of a backtrace.
#[derive(Debug, Clone, Copy, PartialEq, Eq, Structural)]
pub enum BacktraceLine {
    /// A return address.
    Addr(u64),
    /// A frame pointer that leads nowhere.
    Invalid(u64),
    /// There are more frames.
    Truncated,
}

/// The lines for the frames from `fp` on, where `depth` frames have been listed
/// and no more than `most` are: the return address stands in the word below the
/// frame, the pointer to the previous frame below that.
pub open spec fn frames(
    read: spec_fn(int) -> Option<u64>,
    fp: u64,
    depth: nat,
    most: nat,
) -> Seq<BacktraceLine>
    decreases most + 1 - depth,
{
    if fp == 0 || depth > most {
        seq![]
    } else {
        match read(fp - 8) {
            None => seq![BacktraceLine::Invalid(fp)],
            Some(ra) => (if ra != 0 {
                seq![BacktraceLine::Addr(ra)]
            } else {
                seq![]
            }) + match read(fp - 16) {
                None => seq![BacktraceLine::Invalid(fp)],
                Some(prev) => if depth + 1 > most {
                    seq![BacktraceLine::Truncated]
                } else {
                    frames(read, prev, depth + 1, most)
                },
            },
        }
    }
}

/// How many frames of a process are listed.
pub const USER_FRAMES: usize = 10;

/// Lists where a process was, and how it got there.
pub fn user_backtrace(epc: u64, tf: &TrapFrame, pt: &UserPageTable, manager: &PageManager) -> (r: Vec<
    BacktraceLine,
>)
    requires
        manager.wf(),
        pt.pt.wf(manager@),
        user_memory_in_ram(pt.pt, manager@),
    ensures
        r@ == seq![
            BacktraceLine::Addr(epc),
            BacktraceLine::Addr(tf.user_registers.ra),
        ] + frames(
            |addr: int| user_word(pt.pt, manager@, addr),
            tf.user_registers.s0,
            0,
            USER_FRAMES as nat,
        ),
{
    let ghost read = |addr: int| user_word(pt.pt, manager@, addr);
    let mut lines: Vec<BacktraceLine> = Vec::new();
    lines.push(BacktraceLine::Addr(epc));
    lines.push(BacktraceLine::Addr(tf.user_registers.ra));
    let mut fp: u64 = tf.user_registers.s0;
    let mut depth: usize = 0;
    let ghost all = seq![
        BacktraceLine::Addr(epc),
        BacktraceLine::Addr(tf.user_registers.ra),
    ] + frames(read, fp, 0, USER_FRAMES as nat);
    assert(lines@ + frames(read, fp, 0, USER_FRAMES as nat) =~= all);
    while fp != 0
        invariant
            manager.wf(),
            pt.pt.wf(manager@),
            user_memory_in_ram(pt.pt, manager@),
            depth <= USER_FRAMES,
            read == (|addr: int| user_word(pt.pt, manager@, addr)),
            all == lines@ + frames(read, fp, depth as nat, USER_FRAMES as nat),
            all == seq![
                BacktraceLine::Addr(epc),
                BacktraceLine::Addr(tf.user_registers.ra),
            ] + frames(read, tf.user_registers.s0, 0, USER_FRAMES as nat),
        decreases USER_FRAMES - depth,
    {
        let ghost before = lines@;
        let ghost rest = frames(read, fp, depth as nat, USER_FRAMES as nat);
        let word: Option<u64> = if fp >= 8 {
            fetch_usize(fp - 8, pt, manager)
        } else {
            None
        };
        assert(word == read(fp - 8));
        let ra: u64 = match word {
            Some(ra) => ra,
            None => {
                lines.push(BacktraceLine::Invalid(fp));
                assert(lines@ =~= all);
                return lines;
            },
        };
        if ra != 0 {
            lines.push(BacktraceLine::Addr(ra));
        }
        let word: Option<u64> = if fp >= 16 {
            fetch_usize(fp - 16, pt, manager)
        } else {
            None
        };
        assert(word == read(fp - 16));
        let prev: u64 = match word {
            Some(prev) => prev,
            None => {
                lines.push(BacktraceLine::Invalid(fp));
                assert(lines@ =~= all);
                return lines;
            },
        };
        if depth + 1 > USER_FRAMES {
            lines.push(BacktraceLine::Truncated);
            assert(lines@ =~= all);
            return lines;
        }
        proof {
            let next = frames(read, prev, (depth + 1) as nat, USER_FRAMES as nat);
            assert(lines@ + next =~= all);
        }
        fp = prev;
        depth = depth + 1;
    }
    assert(lines@ =~= all);
    lines
}

/// Where each frame points at the previous one, and the outermost one at none, a backtrace
/// lists the return addresses of all of them, the innermost first. If there are more than
/// are listed, it says so instead of going on.
pub proof fn law_frames_listed(
    read: spec_fn(int) -> Option<u64>,
    fps: Seq<u64>,
    ras: Seq<u64>,
    depth: nat,
    most: nat,
)
    requires
        fps.len() > 0,
        ras.len() == fps.len(),
        depth <= most,
        forall|i: int| 0 <= i < fps.len() ==> #[trigger] fps[i] != 0,
        forall|i: int| 0 <= i < ras.len() ==> #[trigger] ras[i] != 0,
        forall|i: int| 0 <= i < fps.len() ==> read(#[trigger] fps[i] - 8) == Some(ras[i]),
        forall|i: int|
            0 <= i < fps.len() ==> read(#[trigger] fps[i] - 16) == Some(
                if i + 1 < fps.len() {
                    fps[i + 1]
                } else {
                    0
                },
            ),
    ensures
        depth + fps.len() <= most ==> frames(read, fps[0], depth, most) == Seq::new(
            ras.len(),
            |i: int| BacktraceLine::Addr(ras[i]),
        ),
        depth + fps.len() > most ==> frames(read, fps[0], depth, most) == Seq::new(
            (most + 1 - depth) as nat,
            |i: int| BacktraceLine::Addr(ras[i]),
        ).push(BacktraceLine::Truncated),
    decreases fps.len(),
{
    let first = seq![BacktraceLine::Addr(ras[0])];
    let whole = frames(read, fps[0], depth, most);
    assert(fps[0] != 0 && ras[0] != 0);
    assert(read(fps[0] - 8) == Some(ras[0]));
    if depth + 1 > most {
        assert(read(fps[0] - 16) is Some);
        assert(whole == first + seq![BacktraceLine::Truncated]);
        assert(whole =~= Seq::new(1, |i: int| BacktraceLine::Addr(ras[i])).push(
            BacktraceLine::Truncated,
        ));
    } else if fps.len() == 1 {
        assert(read(fps[0] - 16) == Some(0u64));
        assert(frames(read, 0, depth + 1, most) =~= seq![]);
        assert(whole =~= first);
        assert(first =~= Seq::new(1, |i: int| BacktraceLine::Addr(ras[i])));
    } else {
        let rest = fps.skip(1);
        let rest_ras = ras.skip(1);
        assert forall|i: int| 0 <= i < rest.len() implies read(#[trigger] rest[i] - 8) == Some(
            rest_ras[i],
        ) by {
            assert(read(fps[i + 1] - 8) == Some(ras[i + 1]));
        }
        assert forall|i: int| 0 <= i < rest.len() implies read(#[trigger] rest[i] - 16) == Some(
            if i + 1 < rest.len() {
                rest[i + 1]
            } else {
                0
            },
        ) by {
            assert(read(fps[i + 1] - 16) is Some);
        }
        law_frames_listed(read, rest, rest_ras, depth + 1, most);
        assert(read(fps[0] - 16) == Some(fps[1]));
        let inner = frames(read, fps[1], depth + 1, most);
        assert(whole == first + inner);
        if depth + fps.len() <= most {
            assert(whole =~= Seq::new(ras.len(), |i: int| BacktraceLine::Addr(ras[i])));
        } else {
            assert(whole =~= Seq::new(
                (most + 1 - depth) as nat,
                |i: int| BacktraceLine::Addr(ras[i]),
            ).push(BacktraceLine::Truncated));
        }
    }
}

/// A backtrace goes no further than what it can read: it ends with the frame that leads
/// nowhere.
pub proof fn law_frames_stop(
    read: spec_fn(int) -> Option<u64>,
    fp: u64,
    depth: nat,
    most: nat,
)
    requires
        depth <= most,
    ensures
        fp == 0 ==> frames(read, fp, depth, most).len() == 0,
        fp != 0 && read(fp - 8) is None ==> frames(read, fp, depth, most) == seq![
            BacktraceLine::Invalid(fp),
        ],
        fp != 0 && read(fp - 8) is Some && read(fp - 16) is None ==> frames(
            read,
            fp,
            depth,
            most,
        ).last() == BacktraceLine::Invalid(fp),
{
}

/// A word of a process is made up of the eight bytes that its memory holds from the address
/// on, the lowest first. There is none at an address that is no multiple of eight, or at
/// which the process cannot both read and write.
pub proof fn law_user_word(pt: PageTable, v: PagesView, addr: u64)
    requires
        pt.wf(v),
        user_memory_in_ram(pt, v),
        addr <= VA_MAX,
    ensures
        ({
            let at = pt.slot_at(addr as nat);
            let word = user_word(pt, v, addr as int);
            &&& addr % 8 != 0 ==> word is None
            &&& at.leaf is None ==> word is None
            &&& at.leaf matches Some(page) ==> {
                &&& !(page.flags.u && page.flags.r && page.flags.w) ==> word is None
                &&& page.flags.u && page.flags.r && page.flags.w && addr % 8 == 0 ==> {
                    let place = translate(at, addr as nat) - v.ram_base;
                    &&& word is Some
                    &&& word->0 == v.ram[place] + 0x100 * v.ram[place + 1] + 0x1_0000 * v.ram[place
                        + 2] + 0x100_0000 * v.ram[place + 3] + 0x1_0000_0000 * v.ram[place + 4]
                        + 0x100_0000_0000 * v.ram[place + 5] + 0x1_0000_0000_0000 * v.ram[place + 6]
                        + 0x100_0000_0000_0000 * v.ram[place + 7]
                }
            }
        }),
{
    let at = pt.slot_at(addr as nat);
    lemma_path_to_slot(pt.0.entries@, 2, addr as nat, v);
    lemma_level_sizes();
    if at.leaf is Some && addr % 8 == 0 && at.leaf->0.flags.has(PtEntryFlags::urw_spec()) {
        let size = level_size(at.level);
        assert(size % 8 == 0 && size >= 4096);
        let off = addr as nat % size;
        assert(off + 8 <= size) by {
            if at.level == 0 {
                assert(addr % 0x1000 <= 0x1000 - 8);
            } else if at.level == 1 {
                assert(addr % 0x20_0000 <= 0x20_0000 - 8);
            } else {
                assert(addr % 0x4000_0000 <= 0x4000_0000 - 8);
            }
        }
        let bytes = chunk(at, addr as nat, v);
        assert(bytes.len() == size - off);
        crate::bytes::law_le_number(bytes.subrange(0, 8));
    }
}

/// All fields of a new trap frame are zero.
pub proof fn law_zero()
    ensures
        ({
            let f = TrapFrame::zero();
            f.kernel_satp == 0 && f.kernel_sp == 0 && f.kernel_trap == 0 && f.epc == 0
                && f.kernel_hartid == 0
        }),
        ({
            let u = TrapFrame::zero().user_registers;
            &&& u.ra == 0
            &&& u.sp == 0
            &&& u.gp == 0
            &&& u.tp == 0
            &&& u.t0 == 0
            &&& u.t1 == 0
            &&& u.t2 == 0
            &&& u.s0 == 0
            &&& u.s1 == 0
            &&& u.a0 == 0
            &&& u.a1 == 0
            &&& u.a2 == 0
            &&& u.a3 == 0
            &&& u.a4 == 0
            &&& u.a5 == 0
            &&& u.a6 == 0
            &&& u.a7 == 0
            &&& u.s2 == 0
            &&& u.s3 == 0
            &&& u.s4 == 0
            &&& u.s5 == 0
            &&& u.s6 == 0
            &&& u.s7 == 0
            &&& u.s8 == 0
            &&& u.s9 == 0
            &&& u.s10 == 0
            &&& u.s11 == 0
            &&& u.t3 == 0
            &&& u.t4 == 0
            &&& u.t5 == 0
            &&& u.t6 == 0
        }),
{
}

} // verus!
