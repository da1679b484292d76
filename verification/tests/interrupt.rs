use ov6::console::{backtrace, StackWords};
use ov6::error::KernelError;
use ov6::interrupt::kernel_vec::{kernel_vec, kernel_vec_return, KernelRegisters};
use ov6::interrupt::trampoline::{user_ret, user_ret_addr, user_vec, user_vec_addr};
use ov6::interrupt::trap::{
    dispatch_irq, fetch_usize, finish_trap_kernel, finish_trap_user, handle_dev_interrupt,
    init_hart, is_from_supervisor, trap_cause, trap_kernel, trap_user, trap_user_ret,
    user_backtrace, BacktraceLine, DevAction, Exception, Interrupt, IntrKind, IrqSource,
    KernelPart, KernelTrapAction, SavedRegisters, TrapCause, TrapFrame, TrapOutcome,
    TrapRegisters, UserRegisters, UserReturn, UserTrapAction,
};
use ov6::interrupt::{
    disable, disabled_depth, enable, force_set_before_push, is_enabled, is_enabled_before_push,
    pop_disabled, push_disabled, with_push_disabled, CpuState, Hart,
};
use ov6::memory::addr::{PhysAddr, VirtAddr, VirtAddrBounds};
use ov6::memory::layout::TRAMPOLINE;
use ov6::memory::page_manager::{PageManager, Ram};
use ov6::memory::page_table::entry::PtEntryFlags;
use ov6::memory::page_table::{MapTarget, PageTable};
use ov6::memory::vm_user::UserPageTable;
use ov6::proc::{
    AlarmInfo, AllocStep, Context, File, Proc, ProcPrivateData, ProcSharedData, ProcState,
    ProcTable, Scan, ScanStep, Uptime,
};
use ov6::types::{ProcId, RawFd};

const BASE: u64 = 0x8000_0000;
const PAGE: u64 = 4096;

fn hart() -> Hart {
    Hart {
        id: 0,
        sie: true,
        state: CpuState::new(),
    }
}

fn manager() -> PageManager {
    let ram = Ram {
        base: BASE,
        bytes: vec![0; (40 * PAGE) as usize],
    };
    PageManager::new(PhysAddr(BASE)..PhysAddr(BASE + 40 * PAGE), ram)
}

fn va(addr: u64) -> VirtAddr {
    VirtAddr::new(addr).unwrap()
}

fn table() -> ProcTable {
    ProcTable {
        procs: (0..3).map(|_| Proc::new()).collect(),
        next_pid: 1,
    }
}

/// Makes the page table of a new process.
fn user_table(m: &mut PageManager) -> Result<UserPageTable, KernelError> {
    Ok(UserPageTable {
        pt: PageTable::try_allocate(m)?,
        program_break: 0,
        trapframe: TrapFrame::new(),
    })
}

/// Makes a process on a CPU of its own, and gives its lock back.
fn allocate(t: &mut ProcTable, m: &mut PageManager) -> Result<usize, KernelError> {
    let mut h = hart();
    match t.allocate(&mut h, Scan::new()) {
        AllocStep::MakeTable(embryo) => {
            assert!(t.procs[embryo.place].shared().0.holding(&h));
            let made = t.finish_allocate(embryo, user_table(m), 0x1234, &mut h);
            assert_eq!(is_enabled(&h), made.is_err());
            let (i, guard) = made?;
            assert!(t.procs[i].shared().0.holding(&h));
            t.procs[i].shared.unlock(guard, &mut h);
            assert!(is_enabled(&h));
            Ok(i)
        }
        AllocStep::Failed(e) => {
            assert!(is_enabled(&h));
            Err(e)
        }
        AllocStep::Spin(_) => panic!("a lock is held"),
    }
}

/// A process with two writable pages from address 0 on.
fn process(m: &mut PageManager) -> ProcPrivateData {
    let mut procs = table();
    let i = allocate(&mut procs, m).unwrap();
    let mut p = procs.procs[i].private.take().unwrap();
    p.pagetable
        .pt
        .map_addrs(
            va(0),
            MapTarget::allocate_new_zeroed(),
            2 * PAGE,
            PtEntryFlags::urw(),
            m,
        )
        .unwrap();
    p
}

// enabling and disabling

#[test]
fn interrupts_stay_off_until_the_last_pop() {
    let mut h = hart();
    let a = push_disabled(&mut h);
    assert!(!is_enabled(&h));
    let b = push_disabled(&mut h);
    assert_eq!(disabled_depth(&h), 2);
    assert!(is_enabled_before_push(&h));
    b.release(&mut h);
    assert!(!is_enabled(&h));
    a.release(&mut h);
    assert!(is_enabled(&h));
    assert_eq!(disabled_depth(&h), 0);
}

#[test]
fn interrupts_that_were_off_stay_off() {
    let mut h = hart();
    disable(&mut h);
    push_disabled(&mut h).forget();
    assert!(!is_enabled_before_push(&h));
    pop_disabled(&mut h);
    assert!(!is_enabled(&h));
    push_disabled(&mut h).forget();
    force_set_before_push(&mut h, true);
    pop_disabled(&mut h);
    assert!(is_enabled(&h));
    disable(&mut h);
    enable(&mut h);
    assert!(is_enabled(&h));
}

#[test]
fn a_closure_runs_with_interrupts_off() {
    let mut h = hart();
    let seen = with_push_disabled(&mut h, |h| (is_enabled(h), disabled_depth(h)));
    assert_eq!(seen, (false, 1));
    assert!(is_enabled(&h));
    assert_eq!(disabled_depth(&h), 0);
}

// traps

#[test]
fn causes_are_told_apart() {
    const BIT: u64 = 1 << 63;
    assert_eq!(trap_cause(BIT | 1), Some(TrapCause::Interrupt(Interrupt::SupervisorSoft)));
    assert_eq!(trap_cause(BIT | 5), Some(TrapCause::Interrupt(Interrupt::SupervisorTimer)));
    assert_eq!(trap_cause(BIT | 9), Some(TrapCause::Interrupt(Interrupt::SupervisorExternal)));
    assert_eq!(trap_cause(8), Some(TrapCause::Exception(Exception::UserEnvCall)));
    assert_eq!(trap_cause(0), Some(TrapCause::Exception(Exception::InstructionMisaligned)));
    assert_eq!(trap_cause(12), Some(TrapCause::Exception(Exception::InstructionPageFault)));
    assert_eq!(trap_cause(13), Some(TrapCause::Exception(Exception::LoadPageFault)));
    assert_eq!(trap_cause(15), Some(TrapCause::Exception(Exception::StorePageFault)));
    assert_eq!(trap_cause(14), None);
    assert_eq!(trap_cause(BIT | 2), None);
}

#[test]
fn the_vector_register_holds_the_address() {
    assert_eq!(init_hart(0x8000_1000), 0x8000_1000);
}

#[test]
fn device_interrupts_are_handled() {
    assert_eq!(
        handle_dev_interrupt(Interrupt::SupervisorTimer, false),
        (DevAction::Tick, IntrKind::Timer)
    );
    assert_eq!(
        handle_dev_interrupt(Interrupt::SupervisorExternal, false),
        (DevAction::Claim, IntrKind::Other)
    );
    assert_eq!(
        handle_dev_interrupt(Interrupt::SupervisorExternal, true),
        (DevAction::CompleteSoftware, IntrKind::InterProcessor)
    );
    assert_eq!(
        handle_dev_interrupt(Interrupt::SupervisorSoft, false),
        (DevAction::Ignore, IntrKind::NotRecognized)
    );
    assert_eq!(dispatch_irq(10), (IrqSource::Uart, true));
    assert_eq!(dispatch_irq(1), (IrqSource::Disk, true));
    assert_eq!(dispatch_irq(33), (IrqSource::Network, true));
    assert_eq!(dispatch_irq(7), (IrqSource::Unexpected(7), true));
    assert_eq!(dispatch_irq(0), (IrqSource::Nothing, false));
}

#[test]
fn the_kernel_survives_interrupts_only() {
    let mut h = hart();
    disable(&mut h);
    let saved = SavedRegisters {
        sepc: 0x8000_0042,
        sstatus: 0x100,
    };
    assert!(is_from_supervisor(saved.sstatus));
    assert_eq!(
        trap_kernel(TrapCause::Exception(Exception::LoadFault), &saved, &h),
        KernelTrapAction::Panic
    );
    assert_eq!(
        trap_kernel(TrapCause::Interrupt(Interrupt::SupervisorTimer), &saved, &h),
        KernelTrapAction::Device(Interrupt::SupervisorTimer)
    );
    let finish = |kind, has_process| finish_trap_kernel(kind, has_process, saved);
    assert_eq!(finish(IntrKind::Timer, true), KernelTrapAction::Yield(saved));
    assert_eq!(finish(IntrKind::Timer, false), KernelTrapAction::Resume(saved));
    assert_eq!(finish(IntrKind::Other, true), KernelTrapAction::Resume(saved));
    assert_eq!(finish(IntrKind::NotRecognized, true), KernelTrapAction::Panic);
}

const KERNEL_VEC: u64 = 0x8000_2000;

/// Takes a trap at 0x100, and checks that traps go to the kernel from then on.
fn trap(
    p: &mut ProcPrivateData,
    cause: TrapCause,
    stval: u64,
    killed: bool,
    m: &mut PageManager,
) -> UserTrapAction {
    let mut h = hart();
    disable(&mut h);
    let regs = TrapRegisters {
        sstatus: 0,
        sepc: 0x100,
        stval,
    };
    let trap = trap_user(p, cause, &regs, KERNEL_VEC, killed, &mut h, m);
    assert_eq!(trap.stvec, KERNEL_VEC);
    assert_eq!(is_enabled(&h), trap.action == UserTrapAction::Syscall);
    trap.action
}

#[test]
fn a_system_call_returns_behind_its_instruction() {
    let mut m = manager();
    let mut p = process(&mut m);
    let cause = TrapCause::Exception(Exception::UserEnvCall);
    assert_eq!(trap(&mut p, cause, 0, false, &mut m), UserTrapAction::Syscall);
    assert_eq!(p.pagetable.trapframe.epc, 0x104);
    assert_eq!(trap(&mut p, cause, 0, true, &mut m), UserTrapAction::Exit(-1));
    let cause = TrapCause::Exception(Exception::IllegalInstruction);
    assert_eq!(trap(&mut p, cause, 0, false, &mut m), UserTrapAction::Kill);
    assert_eq!(p.pagetable.trapframe.epc, 0x100);
}

#[test]
fn a_write_to_a_shared_page_copies_it() {
    let mut m = manager();
    let mut p = process(&mut m);
    let mut child = PageTable::try_allocate(&mut m).unwrap();
    child
        .clone_pages_from(
            &mut p.pagetable.pt,
            VirtAddrBounds::range(va(0), va(PAGE)),
            PtEntryFlags::urw(),
            &mut m,
        )
        .unwrap();
    let before = p.pagetable.pt.find_leaf_entry(va(0)).unwrap().1.pa;
    let cause = TrapCause::Exception(Exception::StorePageFault);
    assert_eq!(trap(&mut p, cause, 8, false, &mut m), UserTrapAction::Resume);
    let after = p.pagetable.pt.find_leaf_entry(va(0)).unwrap().1;
    assert_ne!(after.pa, before);
    assert!(after.flags.w);
    assert_eq!(trap(&mut p, cause, 0x9000, false, &mut m), UserTrapAction::Kill);
}

#[test]
fn an_alarm_sends_the_process_to_its_handler() {
    let mut m = manager();
    let mut p = process(&mut m);
    let mut shared = ProcSharedData::new();
    shared.set_alarm(Uptime(0), 100, va(0x500));
    p.pagetable.trapframe.epc = 0x100;
    p.pagetable.trapframe.user_registers.a0 = 7;
    let timer = || TrapOutcome::Device(IntrKind::Timer);
    assert_eq!(
        finish_trap_user(&mut shared, &mut p, timer(), Uptime(99)),
        UserReturn::Yield
    );
    assert_eq!(p.pagetable.trapframe.epc, 0x100);
    finish_trap_user(&mut shared, &mut p, timer(), Uptime(100));
    assert_eq!(p.pagetable.trapframe.epc, 0x500);
    assert_eq!(shared.alarm.unwrap().time, Uptime(200));
    // in the handler, another alarm changes nothing
    p.pagetable.trapframe.user_registers.a0 = 8;
    finish_trap_user(&mut shared, &mut p, timer(), Uptime(300));
    assert_eq!(p.pagetable.trapframe.epc, 0x500);
    p.exit_from_signal_handler().unwrap();
    assert_eq!(p.pagetable.trapframe.epc, 0x100);
    assert_eq!(p.pagetable.trapframe.user_registers.a0, 7);
    assert_eq!(p.exit_from_signal_handler(), Err(KernelError::NotInSignalHandler));
    assert_eq!(
        finish_trap_user(&mut shared, &mut p, TrapOutcome::Fault, Uptime(0)),
        UserReturn::Exit(-1)
    );
    assert!(shared.killed());
}

#[test]
fn returning_to_user_space_prepares_the_next_trap() {
    let mut m = manager();
    let mut p = process(&mut m);
    p.pagetable.trapframe.epc = 0x44;
    let kernel = KernelPart {
        satp: 1,
        trap_user: 2,
        hartid: 3,
        user_vec: 0x8000_0010,
        trampoline: 0x8000_0000,
        sstatus: 0x8_0100,
    };
    let mut h = hart();
    let kstack = p.kstack.addr();
    let r = trap_user_ret(&mut p, &kernel, &mut h);
    assert!(!is_enabled(&h));
    assert_eq!(r.sstatus, 0x8_0020);
    assert_eq!(r.stvec, TRAMPOLINE + 0x10);
    assert_eq!(r.sepc, 0x44);
    assert_eq!(r.satp, p.pagetable.pt.satp());
    assert_eq!(p.pagetable.trapframe.kernel_satp, 1);
    assert_eq!(p.pagetable.trapframe.kernel_sp, kstack + 4 * PAGE);
    assert_eq!(p.pagetable.trapframe.kernel_trap, 2);
    assert_eq!(p.pagetable.trapframe.kernel_hartid, 3);
    assert_eq!(user_vec_addr(0x20, 0x10).addr(), TRAMPOLINE + 0x10);
    assert_eq!(user_ret_addr(0x30, 0x10).addr(), TRAMPOLINE + 0x20);
}

#[test]
fn user_frames_are_followed() {
    let mut m = manager();
    let mut p = process(&mut m);
    let page = p.pagetable.pt.find_leaf_entry(va(0)).unwrap().1.pa;
    let word = |m: &mut PageManager, at: u64, value: u64| {
        m.write_bytes(PhysAddr(page.0 + at), &value.to_le_bytes());
    };
    // the frame at 0x100 was called from 0x222, and the one before it ends the chain
    word(&mut m, 0xf8, 0x222);
    word(&mut m, 0xf0, 0);
    p.pagetable.trapframe.user_registers.ra = 0x111;
    p.pagetable.trapframe.user_registers.s0 = 0x100;
    assert_eq!(
        user_backtrace(0x42, &p.pagetable.trapframe, &p.pagetable, &m),
        [
            BacktraceLine::Addr(0x42),
            BacktraceLine::Addr(0x111),
            BacktraceLine::Addr(0x222)
        ]
    );
    assert_eq!(fetch_usize(0xf8, &p.pagetable, &m), Some(0x222));
    assert_eq!(fetch_usize(0x9000, &p.pagetable, &m), None);
    p.pagetable.trapframe.user_registers.s0 = 0x9000;
    assert_eq!(
        user_backtrace(0x42, &p.pagetable.trapframe, &p.pagetable, &m)[2],
        BacktraceLine::Invalid(0x9000)
    );
}

#[test]
fn kernel_frames_are_followed() {
    let stack = StackWords {
        base: 0x1000,
        words: vec![0x1020, 0xaa, 0, 0xbb],
    };
    assert_eq!(
        backtrace(0x1010, &stack),
        [BacktraceLine::Addr(0xaa), BacktraceLine::Addr(0xbb)]
    );
    let round = StackWords {
        base: 0x1000,
        words: vec![0x1010, 0xaa],
    };
    let lines = backtrace(0x1010, &round);
    assert_eq!(lines.last(), Some(&BacktraceLine::Truncated));
    assert_eq!(lines.len(), 102);
}

#[test]
fn user_registers_survive_a_trap() {
    let mut regs = UserRegisters::new();
    regs.a0 = 1;
    regs.t6 = 2;
    regs.sp = 3;
    let mut tf = TrapFrame::new();
    tf.kernel_satp = 0x77;
    tf.kernel_sp = 0x1000;
    tf.kernel_trap = 0x2000;
    tf.kernel_hartid = 4;
    let entry = user_vec(&regs, &mut tf);
    assert_eq!((entry.satp, entry.pc, entry.tp), (0x77, 0x2000, 4));
    assert_eq!((entry.sp, entry.fp, entry.frame), (0x1000 - 16, 0x1000, [0, 0]));
    assert_eq!(user_ret(0x99, &tf), (0x99, regs));
}

#[test]
fn kernel_registers_survive_a_trap() {
    let regs = KernelRegisters {
        ra: 1,
        sp: 0x1180,
        gp: 3,
        tp: 4,
        t0: 5,
        t1: 6,
        t2: 7,
        fp: 0,
        a0: 9,
        a1: 10,
        a2: 11,
        a3: 12,
        a4: 13,
        a5: 14,
        a6: 15,
        a7: 16,
        t3: 17,
        t4: 18,
        t5: 19,
        t6: 20,
    };
    let mut stack = StackWords {
        base: 0x1000,
        words: vec![0xee; 64],
    };
    let inside = kernel_vec(&regs, 0x8000_0042, &mut stack);
    assert_eq!((inside.sp, inside.fp, inside.a0), (0x1180 - 272, 0x1180, 0x8000_0042));
    assert_eq!(backtrace(inside.fp, &stack), [BacktraceLine::Addr(0x8000_0042)]);
    assert_eq!(stack.read(0x1180, 0), Some(0xee));
    // another hart goes on
    let after = kernel_vec_return(inside.sp, 5, &stack);
    assert_eq!(after, KernelRegisters { tp: 5, ..regs });
}

// processes

#[test]
fn processes_are_allocated_in_the_table() {
    let mut m = manager();
    let mut t = table();
    let a = allocate(&mut t, &mut m).unwrap();
    let b = allocate(&mut t, &mut m).unwrap();
    assert_eq!((a, b), (0, 1));
    let p = &t.procs[b];
    assert_eq!(p.shared().0.value.pid(), ProcId::new(2));
    assert_eq!(p.shared.0.value.state, ProcState::Used);
    assert_eq!(
        p.shared.0.value.context,
        Context::new(0x1234, TRAMPOLINE - 0xa000 + 0x4000)
    );
    assert_eq!(p.private.as_ref().unwrap().program_break(), va(0));
    allocate(&mut t, &mut m).unwrap();
    assert_eq!(allocate(&mut t, &mut m), Err(KernelError::NoFreeProc));
    let mut h = hart();
    assert!(matches!(t.lock_unused_proc(&mut h, Scan::new()), ScanStep::NoFree));
    let guard = t.procs[0].shared.try_lock(&mut h).unwrap();
    t.procs[0].free();
    t.procs[0].shared.unlock(guard, &mut h);
    assert!(matches!(
        t.lock_unused_proc(&mut h, Scan::new()),
        ScanStep::Found(0, _)
    ));
}

#[test]
fn the_search_for_a_place_waits_for_locks() {
    let mut m = manager();
    let mut t = table();
    let mut other = Hart { id: 1, ..hart() };
    let held = t.procs[0].shared.lock(&mut other, None).unwrap();
    let mut h = hart();
    let AllocStep::Spin(scan) = t.allocate(&mut h, Scan::new()) else {
        panic!("the first lock is held");
    };
    assert_eq!(t.next_pid, 1);
    t.procs[0].shared.unlock(held, &mut other);
    let AllocStep::MakeTable(embryo) = t.allocate(&mut h, scan) else {
        panic!("the first place is unused");
    };
    assert_eq!((embryo.place, embryo.pid), (0, ProcId::new(1)));
    let table = user_table(&mut m);
    let (i, guard) = t.finish_allocate(embryo, table, 0, &mut h).unwrap();
    t.procs[i].shared.unlock(guard, &mut h);
    assert!(is_enabled(&h));
}

#[test]
fn a_process_needs_a_page() {
    let mut m = manager();
    while ov6::memory::page_manager::Page::allocate(&mut m).is_ok() {}
    let mut t = table();
    assert_eq!(allocate(&mut t, &mut m), Err(KernelError::NoFreePage));
    assert_eq!(t.procs[0].shared.0.value.state, ProcState::Unused);
    assert_eq!(t.next_pid, 2);
}

#[test]
fn private_data_is_borrowed() {
    let mut m = manager();
    let mut t = table();
    let i = allocate(&mut t, &mut m).unwrap();
    let p = &mut t.procs[i];
    assert!(p.private_borrowed);
    p.return_private();
    p.borrow_private().unwrap().set_trace_mask(3);
    assert!(p.private_borrowed);
    let data = p.remove_private();
    assert_eq!(data.trace_mask(), 3);
    assert!(p.borrow_private().is_none());
    let mut h = hart();
    p.shared.lock(&mut h, None).unwrap();
    assert!(!p.forkret(&mut h));
    assert!(is_enabled(&h));
    p.set_parent(2);
    assert!(p.is_child_of(2) && !p.is_child_of(1));
}

#[test]
fn files_get_the_first_free_descriptor() {
    let mut m = manager();
    let mut p = process(&mut m);
    let fd = p.add_ofile(File(10)).unwrap();
    assert_eq!(fd, RawFd::new(0));
    for i in 1..16 {
        p.add_ofile(File(10 + i)).unwrap();
    }
    assert_eq!(
        p.add_ofile(File(99)).unwrap_err(),
        KernelError::NoFreeFileDescriptorTableEntry
    );
    assert_eq!(p.unset_ofile(RawFd::new(3)).unwrap(), File(13));
    assert!(matches!(
        p.ofile(RawFd::new(3)),
        Err(KernelError::FileDescriptorNotFound(RawFd(3), ProcId(1)))
    ));
    assert_eq!(p.add_ofile(File(50)).unwrap(), RawFd::new(3));
    assert_eq!(p.ofile(RawFd::new(3)).unwrap(), File(50));
    assert!(p.ofile(RawFd::new(16)).is_err());
}

#[test]
fn names_are_cut() {
    let mut shared = ProcSharedData::new();
    shared.set_name(b"init");
    assert_eq!(shared.name(), b"init");
    shared.set_name(b"0123456789abcdefXYZ");
    assert_eq!(shared.name(), b"0123456789abcdef");
    shared.kill();
    assert!(shared.killed());
}

#[test]
fn alarms_expire() {
    let mut alarm = AlarmInfo {
        time: Uptime(10),
        dur: 5,
        handler: va(0x10),
    };
    assert!(!alarm.is_expired(Uptime(9)));
    assert!(alarm.is_expired(Uptime(10)));
    alarm.update(Uptime(12));
    assert_eq!(alarm.time, Uptime(17));
    assert_eq!(alarm.handler(), va(0x10));
    assert_eq!(Uptime(u64::MAX).saturating_add(1), Uptime(u64::MAX));
    let mut shared = ProcSharedData::new();
    assert!(shared.alarm_mut().is_none());
    shared.set_alarm(Uptime(1), 2, va(3));
    assert_eq!(shared.alarm_mut().unwrap().time, Uptime(3));
    shared.clear_alarm();
    assert!(shared.alarm_mut().is_none());
}

#[test]
fn the_page_table_of_a_process_can_be_replaced() {
    let mut m = manager();
    let mut p = process(&mut m);
    let pt = PageTable::try_allocate(&mut m).unwrap();
    p.trapframe_mut().epc = 1;
    let mut trapframe = TrapFrame::new();
    trapframe.epc = 2;
    p.update_pagetable(UserPageTable { pt, program_break: 77, trapframe });
    assert_eq!(p.program_break(), va(77));
    // the trap frame goes with the page table
    assert_eq!(p.trapframe().epc, 2);
    p.pagetable_mut().program_break = 78;
    assert_eq!(p.pagetable().program_break, 78);
    p.trapframe_mut().epc = 5;
    assert_eq!(p.trapframe().epc, 5);
    p.cwd = Some(1);
    assert_eq!(p.update_cwd(2), 1);
    assert_eq!(p.cwd(), 2);
}
