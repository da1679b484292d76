//! Processes.
use crate::arrays::{clear_name, extend_name, name_of, name_slice, new_name};
use crate::error::KernelError;
use crate::interrupt::trap::{TrapFrame, UserRegisters};
use crate::memory::addr::VirtAddr;
use crate::memory::layout::{kstack, KSTACK_PAGES, KSTACK_STRIDE, TRAMPOLINE};
use crate::memory::vm_user::UserPageTable;
use crate::memory::PAGE_SIZE;
use crate::interrupt::{Guard, Hart, NCPU};
use crate::sync::spin_lock::{can_lock, holding, SpinLock, SpinLockGuard, TryLockError, INVALID_CPUID};
use crate::types::{ProcId, RawFd};
use arrayvec::ArrayVec;
use vstd::prelude::*;

verus! {

/// How many files a process can have open.
pub const NOFILE: usize = 16;

/// How many processes there can be.
pub const NPROC: usize = 64;

/// How many bytes of the name of a process are kept.
pub const NAME_LEN: usize = 16;

/// A time since the machine was started, in nanoseconds.
#[derive(Debug, Clone, Copy, PartialEq, Eq, Structural)]
pub struct Uptime(pub u64);

impl Uptime {
    /// The time `dur` nanoseconds later, or the last time that there is.
    pub fn saturating_add(self, dur: u64) -> (r: Self)
        ensures
            r == self.plus(dur),
    {
        Uptime(self.0.saturating_add(dur))
    }

    /// The time `dur` nanoseconds later, or the last time that there is.
    pub open spec fn plus(self, dur: u64) -> Self {
        Uptime(
            if self.0 + dur > u64::MAX {
                u64::MAX
            } else {
                (self.0 + dur) as u64
            },
        )
    }
}

/// What a process does.
#[derive(Debug, Clone, Copy, PartialEq, Eq, Structural)]
pub enum ProcState {
    Unused,
    Used,
    Sleeping { chan: usize },
    Runnable,
    Running,
    Zombie { exit_status: i32 },
}

/// An alarm that a process has set.
#[derive(Debug, Clone, Copy, PartialEq, Eq, Structural)]
pub struct AlarmInfo {
    /// When it goes off next.
    pub time: Uptime,
    /// How many nanoseconds pass until it goes off again.
    pub dur: u64,
    /// The code that is then run.
    pub handler: VirtAddr,
}

impl AlarmInfo {
    /// Whether it is time for the alarm.
    pub fn is_expired(&self, now: Uptime) -> (r: bool)
        ensures
            r == (now.0 >= self.time.0),
    {
        now.0 >= self.time.0
    }

    /// Sets the alarm again.
    pub fn update(&mut self, now: Uptime)
        ensures
            *final(self) == (AlarmInfo { time: now.plus(old(self).dur), ..*old(self) }),
    {
        self.time = now.saturating_add(self.dur);
    }

    /// The code that is run.
    pub fn handler(&self) -> (r: VirtAddr)
        ensures
            r == self.handler,
    {
        self.handler
    }
}

/// The registers that the kernel switches between processes by.
#[derive(Debug, Clone, Copy, PartialEq, Eq, Structural)]
pub struct Context {
    pub ra: u64,
    pub sp: u64,
    pub s0: u64,
    pub s1: u64,
    pub s2: u64,
    pub s3: u64,
    pub s4: u64,
    pub s5: u64,
    pub s6: u64,
    pub s7: u64,
    pub s8: u64,
    pub s9: u64,
    pub s10: u64,
    pub s11: u64,
}

impl Context {
    /// All registers zero but `ra` and `sp`.
    pub open spec fn start(ra: u64, sp: u64) -> Self {
        Context {
            ra,
            sp,
            s0: 0,
            s1: 0,
            s2: 0,
            s3: 0,
            s4: 0,
            s5: 0,
            s6: 0,
            s7: 0,
            s8: 0,
            s9: 0,
            s10: 0,
            s11: 0,
        }
    }

    /// All registers zero but `ra` and `sp`.
    pub fn new(ra: u64, sp: u64) -> (r: Self)
        ensures
            r == Self::start(ra, sp),
    {
        Context {
            ra,
            sp,
            s0: 0,
            s1: 0,
            s2: 0,
            s3: 0,
            s4: 0,
            s5: 0,
            s6: 0,
            s7: 0,
            s8: 0,
            s9: 0,
            s10: 0,
            s11: 0,
        }
    }
}

/// Per-process state that can be accessed from other processes.
pub struct ProcSharedData {
    /// Process ID
    pub pid: Option<ProcId>,
    /// Process name (for debugging)
    pub name: ArrayVec<u8, 16>,
    /// Process State
    pub state: ProcState,
    /// Process is killed
    pub killed: bool,
    /// Alarm information
    pub alarm: Option<AlarmInfo>,
    /// Process context
    pub context: Context,
}

impl ProcSharedData {
    /// The state of a process that there is not.
    pub fn new() -> (r: Self)
        ensures
            r.pid is None,
            name_of(r.name) == Seq::<u8>::empty(),
            r.state == ProcState::Unused,
            !r.killed,
            r.alarm is None,
            r.context == Context::start(0, 0),
    {
        ProcSharedData {
            pid: None,
            name: new_name(),
            state: ProcState::Unused,
            killed: false,
            alarm: None,
            context: Context::new(0, 0),
        }
    }

    /// Whether everything but the name is as in `other`.
    pub open spec fn same_but_name(self, other: Self) -> bool {
        &&& self.pid == other.pid
        &&& self.state == other.state
        &&& self.killed == other.killed
        &&& self.alarm == other.alarm
        &&& self.context == other.context
    }

    /// Returns the process ID.
    pub fn pid(&self) -> (r: ProcId)
        requires
            self.pid is Some,
        ensures
            self.pid == Some(r),
    {
        match self.pid {
            Some(pid) => pid,
            None => vstd::pervasive::unreached(),
        }
    }

    /// Returns the name of the process.
    pub fn name(&self) -> (r: &[u8])
        ensures
            r@ == name_of(self.name),
    {
        name_slice(&self.name)
    }

    /// Sets the name of the process, as much of it as is kept.
    pub fn set_name(&mut self, name: &[u8])
        ensures
            name_of(final(self).name) == (if name@.len() <= NAME_LEN {
                name@
            } else {
                name@.take(NAME_LEN as int)
            }),
            final(self).same_but_name(*old(self)),
    {
        clear_name(&mut self.name);
        let len: usize = if name.len() <= NAME_LEN {
            name.len()
        } else {
            NAME_LEN
        };
        let part: &[u8] = vstd::slice::slice_subrange(name, 0, len);
        let fits: bool = extend_name(&mut self.name, part);
        assert(fits);
        assert(name_of(self.name) =~= part@);
        assert(name@.len() <= NAME_LEN ==> part@ =~= name@);
    }

    /// Marks the process as killed.
    pub fn kill(&mut self)
        ensures
            *final(self) == (ProcSharedData { killed: true, ..*old(self) }),
    {
        self.killed = true;
    }

    /// Whether the process is killed.
    pub fn killed(&self) -> (r: bool)
        ensures
            r == self.killed,
    {
        self.killed
    }

    /// The alarm of the process, to be changed.
    pub fn alarm_mut(&mut self) -> (r: Option<&mut AlarmInfo>)
        ensures
            r is Some <==> old(self).alarm is Some,
            r is None ==> *final(self) == *old(self),
            r matches Some(alarm) ==> {
                &&& *alarm == old(self).alarm->0
                &&& *final(self) == (ProcSharedData { alarm: Some(*final(alarm)), ..*old(self) })
            },
    {
        self.alarm.as_mut()
    }

    /// Sets an alarm that goes off `dur` nanoseconds from now on, again and again.
    pub fn set_alarm(&mut self, now: Uptime, dur: u64, handler: VirtAddr)
        ensures
            *final(self) == (ProcSharedData {
                alarm: Some(AlarmInfo { time: now.plus(dur), dur, handler }),
                ..*old(self)
            }),
    {
        let time: Uptime = now.saturating_add(dur);
        self.alarm = Some(AlarmInfo { time, dur, handler });
    }

    /// Takes the alarm back.
    pub fn clear_alarm(&mut self)
        ensures
            *final(self) == (ProcSharedData { alarm: None, ..*old(self) }),
    {
        self.alarm = None;
    }
}

/// The part of a process that other processes can access, behind its lock.
pub struct ProcShared(pub SpinLock<ProcSharedData>);

impl ProcShared {
    /// The part of a process that there is not, with nobody holding the lock.
    pub fn new() -> (r: Self)
        ensures
            r.0.wf(),
            !r.0.locked,
            r.0.value.pid is None,
            name_of(r.0.value.name) == Seq::<u8>::empty(),
            r.0.value.state == ProcState::Unused,
            !r.0.value.killed,
            r.0.value.alarm is None,
            r.0.value.context == Context::start(0, 0),
    {
        ProcShared(SpinLock::new(ProcSharedData::new()))
    }

    /// Takes the lock if nobody holds it; otherwise the CPU goes on waiting, as in
    /// [`SpinLock::lock`].
    pub fn lock(&mut self, hart: &mut Hart, waiting: Option<Guard>) -> (r: Result<
        SpinLockGuard,
        Guard,
    >)
        requires
            can_lock(old(self).0, waiting, *old(hart)),
        ensures
            final(self).0.wf(),
            final(hart).wf(),
            final(self).0.value == old(self).0.value,
            *final(hart) == holding(waiting, *old(hart)),
            match r {
                Ok(guard) => {
                    &&& !old(self).0.locked
                    &&& guard.cpuid == old(hart).id
                    &&& final(self).0.held_by(old(hart).id)
                },
                Err(guard) => {
                    &&& old(self).0.locked
                    &&& guard.cpuid == old(hart).id
                    &&& *final(self) == *old(self)
                },
            },
    {
        self.0.lock(hart, waiting)
    }

    /// Takes the lock if nobody holds it.
    pub fn try_lock(&mut self, hart: &mut Hart) -> (r: Result<SpinLockGuard, TryLockError>)
        requires
            old(self).0.wf(),
            old(hart).wf(),
            old(hart).state.push_depth < NCPU,
            old(hart).id != INVALID_CPUID,
            !old(self).0.held_by(old(hart).id),
        ensures
            final(self).0.wf(),
            final(hart).wf(),
            final(self).0.value == old(self).0.value,
            old(self).0.locked ==> {
                &&& r == Err::<SpinLockGuard, TryLockError>(TryLockError::Locked)
                &&& *final(self) == *old(self)
                &&& *final(hart) == old(hart).pushed().popped()
                &&& final(hart).sie == old(hart).sie
                &&& final(hart).state.push_depth == old(hart).state.push_depth
            },
            !old(self).0.locked ==> {
                &&& r matches Ok(guard)
                &&& guard.cpuid == old(hart).id
                &&& final(self).0.held_by(old(hart).id)
                &&& *final(hart) == old(hart).pushed()
            },
    {
        self.0.try_lock(hart)
    }

    /// Stands for the lock that this CPU holds.
    pub fn remember_locked(&self, hart: &Hart) -> (r: SpinLockGuard)
        requires
            self.0.held_by(hart.id),
            !hart.sie,
        ensures
            r.cpuid == hart.id,
    {
        self.0.remember_locked(hart)
    }

    /// Gives the lock back.
    pub fn unlock(&mut self, guard: SpinLockGuard, hart: &mut Hart)
        requires
            old(hart).wf(),
            old(hart).state.push_depth > 0,
            guard.cpuid == old(hart).id,
            old(self).0.held_by(old(hart).id),
        ensures
            final(self).0.wf(),
            final(hart).wf(),
            !final(self).0.locked,
            final(self).0.value == old(self).0.value,
            *final(hart) == old(hart).popped(),
    {
        self.0.unlock(guard, hart);
    }
}

/// What a process was doing when it was interrupted.
#[derive(Debug, Clone, Copy, PartialEq, Eq, Structural)]
pub struct InterruptedContext {
    pub epc: u64,
    pub user_registers: UserRegisters,
}

/// What a process goes back to after a signal handler.
#[derive(Debug, Clone, Copy, PartialEq, Eq, Structural)]
pub struct SignalHandlerState {
    pub context: InterruptedContext,
}

/// An open file, by its number in the table of all open files.
#[derive(Debug, Clone, Copy, PartialEq, Eq, Structural)]
pub struct File(pub usize);

/// Per-process state that only the process itself accesses.
pub struct ProcPrivateData {
    pub pid: ProcId,
    /// Virtual address of kernel stack.
    pub kstack: VirtAddr,
    /// User page table
    pub pagetable: UserPageTable,
    /// Open files
    pub ofile: Vec<Option<File>>,
    /// Current directory, by its number
    pub cwd: Option<usize>,
    /// System call trace mask
    pub trace_mask: u64,
    /// What a signal handler goes back to, if one is running.
    pub signal_handler_state: Option<SignalHandlerState>,
}

/// The first free place for an open file from the `k`-th on.
pub open spec fn free_fd(ofile: Seq<Option<File>>, k: nat) -> Option<int>
    decreases ofile.len() - k,
{
    if k >= ofile.len() {
        None
    } else if ofile[k as int] is None {
        Some(k as int)
    } else {
        free_fd(ofile, k + 1)
    }
}

impl ProcPrivateData {
    /// Whether a file is open under a number.
    pub open spec fn file_at(self, fd: RawFd) -> Option<File> {
        if fd.0 < self.ofile@.len() {
            self.ofile@[fd.0 as int]
        } else {
            None
        }
    }

    /// Whether everything but the open files is as in `other`.
    pub open spec fn same_but_files(self, other: Self) -> bool {
        &&& self.pid == other.pid
        &&& self.kstack == other.kstack
        &&& self.pagetable == other.pagetable
        &&& self.cwd == other.cwd
        &&& self.trace_mask == other.trace_mask
        &&& self.signal_handler_state == other.signal_handler_state
    }

    /// Returns the address of the kernel stack.
    pub fn kstack(&self) -> (r: VirtAddr)
        ensures
            r == self.kstack,
    {
        self.kstack
    }

    /// Returns the end of the memory of the process.
    pub fn program_break(&self) -> (r: VirtAddr)
        ensures
            r.0 == self.pagetable.program_break,
    {
        VirtAddr(self.pagetable.program_break)
    }

    /// Returns the page table.
    pub fn pagetable(&self) -> (r: &UserPageTable)
        ensures
            *r == self.pagetable,
    {
        &self.pagetable
    }

    /// Returns the page table, to be changed.
    pub fn pagetable_mut(&mut self) -> (r: &mut UserPageTable)
        ensures
            *r == old(self).pagetable,
            *final(self) == (ProcPrivateData { pagetable: *final(r), ..*old(self) }),
    {
        &mut self.pagetable
    }

    /// Replaces the page table.
    pub fn update_pagetable(&mut self, pt: UserPageTable)
        ensures
            *final(self) == (ProcPrivateData { pagetable: pt, ..*old(self) }),
    {
        self.pagetable = pt;
    }

    /// The process with another trap frame.
    pub open spec fn with_trapframe(self, trapframe: TrapFrame) -> Self {
        ProcPrivateData { pagetable: UserPageTable { trapframe, ..self.pagetable }, ..self }
    }

    /// Returns the trap frame.
    pub fn trapframe(&self) -> (r: &TrapFrame)
        ensures
            *r == self.pagetable.trapframe,
    {
        &self.pagetable.trapframe
    }

    /// Returns the trap frame, to be changed.
    pub fn trapframe_mut(&mut self) -> (r: &mut TrapFrame)
        ensures
            *r == old(self).pagetable.trapframe,
            *final(self) == old(self).with_trapframe(*final(r)),
    {
        &mut self.pagetable.trapframe
    }

    /// Returns the file that is open under a number.
    pub fn ofile(&self, fd: RawFd) -> (r: Result<File, KernelError>)
        ensures
            r == (match self.file_at(fd) {
                Some(file) => Ok::<File, KernelError>(file),
                None => Err(KernelError::FileDescriptorNotFound(fd, self.pid)),
            }),
    {
        if fd.0 < self.ofile.len() {
            match self.ofile[fd.0] {
                Some(file) => Ok(file),
                None => Err(KernelError::FileDescriptorNotFound(fd, self.pid)),
            }
        } else {
            Err(KernelError::FileDescriptorNotFound(fd, self.pid))
        }
    }

    /// Opens a file under the lowest number that is free.
    pub fn add_ofile(&mut self, file: File) -> (r: Result<RawFd, KernelError>)
        ensures
            final(self).same_but_files(*old(self)),
            match free_fd(old(self).ofile@, 0) {
                Some(fd) => {
                    &&& r matches Ok(found)
                    &&& found.0 == fd
                    &&& final(self).ofile@ == old(self).ofile@.update(fd, Some(file))
                },
                None => {
                    &&& r == Err::<RawFd, KernelError>(KernelError::NoFreeFileDescriptorTableEntry)
                    &&& final(self).ofile@ == old(self).ofile@
                },
            },
    {
        let mut k: usize = 0;
        while k < self.ofile.len()
            invariant
                *self == *old(self),
                k <= self.ofile@.len(),
                free_fd(self.ofile@, 0) == free_fd(self.ofile@, k as nat),
            decreases self.ofile@.len() - k,
        {
            if self.ofile[k].is_none() {
                self.ofile.set(k, Some(file));
                return Ok(RawFd::new(k));
            }
            k = k + 1;
        }
        Err(KernelError::NoFreeFileDescriptorTableEntry)
    }

    /// Closes a file.
    pub fn unset_ofile(&mut self, fd: RawFd) -> (r: Result<File, KernelError>)
        ensures
            final(self).same_but_files(*old(self)),
            match old(self).file_at(fd) {
                Some(file) => {
                    &&& r == Ok::<File, KernelError>(file)
                    &&& final(self).ofile@ == old(self).ofile@.update(fd.0 as int, None)
                },
                None => {
                    &&& r == Err::<File, KernelError>(
                        KernelError::FileDescriptorNotFound(fd, old(self).pid),
                    )
                    &&& final(self).ofile@ == old(self).ofile@
                },
            },
    {
        if fd.0 < self.ofile.len() {
            match self.ofile[fd.0] {
                Some(file) => {
                    self.ofile.set(fd.0, None);
                    Ok(file)
                },
                None => Err(KernelError::FileDescriptorNotFound(fd, self.pid)),
            }
        } else {
            Err(KernelError::FileDescriptorNotFound(fd, self.pid))
        }
    }

    /// Returns the current directory.
    pub fn cwd(&self) -> (r: usize)
        requires
            self.cwd is Some,
        ensures
            self.cwd == Some(r),
    {
        match self.cwd {
            Some(cwd) => cwd,
            None => vstd::pervasive::unreached(),
        }
    }

    /// Changes the current directory; returns the one before.
    pub fn update_cwd(&mut self, cwd: usize) -> (r: usize)
        requires
            old(self).cwd is Some,
        ensures
            old(self).cwd == Some(r),
            *final(self) == (ProcPrivateData { cwd: Some(cwd), ..*old(self) }),
    {
        let before: usize = self.cwd();
        self.cwd = Some(cwd);
        before
    }

    /// Returns the system call trace mask.
    pub fn trace_mask(&self) -> (r: u64)
        ensures
            r == self.trace_mask,
    {
        self.trace_mask
    }

    /// Sets the system call trace mask.
    pub fn set_trace_mask(&mut self, mask: u64)
        ensures
            *final(self) == (ProcPrivateData { trace_mask: mask, ..*old(self) }),
    {
        self.trace_mask = mask;
    }

    /// The process after it has been sent to a signal handler.
    pub open spec fn interrupted(self, handler: VirtAddr) -> Self {
        if self.signal_handler_state is Some {
            self
        } else {
            ProcPrivateData {
                signal_handler_state: Some(
                    SignalHandlerState {
                        context: InterruptedContext {
                            epc: self.pagetable.trapframe.epc,
                            user_registers: self.pagetable.trapframe.user_registers,
                        },
                    },
                ),
                ..self.with_trapframe(TrapFrame { epc: handler.0, ..self.pagetable.trapframe })
            }
        }
    }

    /// The process after it has gone back from a signal handler.
    pub open spec fn resumed(self) -> Self {
        let context = self.signal_handler_state->0.context;
        ProcPrivateData {
            signal_handler_state: None,
            ..self.with_trapframe(
                TrapFrame {
                    epc: context.epc,
                    user_registers: context.user_registers,
                    ..self.pagetable.trapframe
                },
            )
        }
    }

    /// Sends the process to a signal handler, unless it is in one already.
    pub fn enter_signal_handler(&mut self, handler: VirtAddr)
        ensures
            *final(self) == old(self).interrupted(handler),
    {
        if self.signal_handler_state.is_some() {
            return;
        }
        self.signal_handler_state = Some(
            SignalHandlerState {
                context: InterruptedContext {
                    epc: self.pagetable.trapframe.epc,
                    user_registers: self.pagetable.trapframe.user_registers,
                },
            },
        );
        self.pagetable.trapframe.epc = handler.addr();
    }

    /// Makes the process go on where it was when it was sent to a signal handler.
    pub fn exit_from_signal_handler(&mut self) -> (r: Result<(), KernelError>)
        ensures
            old(self).signal_handler_state is None ==> {
                &&& r == Err::<(), KernelError>(KernelError::NotInSignalHandler)
                &&& *final(self) == *old(self)
            },
            old(self).signal_handler_state is Some ==> {
                &&& r is Ok
                &&& *final(self) == old(self).resumed()
            },
    {
        match self.signal_handler_state {
            None => Err(KernelError::NotInSignalHandler),
            Some(state) => {
                self.signal_handler_state = None;
                self.pagetable.trapframe.epc = state.context.epc;
                self.pagetable.trapframe.user_registers = state.context.user_registers;
                Ok(())
            },
        }
    }
}

/// A process that comes back from a signal handler goes on as if nothing had
/// happened, whatever the handler has done to the registers.
pub proof fn law_signal_transparent(
    before: ProcPrivateData,
    handler: VirtAddr,
    during: ProcPrivateData,
)
    requires
        before.signal_handler_state is None,
        during.signal_handler_state == before.interrupted(handler).signal_handler_state,
    ensures
        during.resumed().pagetable.trapframe.epc == before.pagetable.trapframe.epc,
        during.resumed().pagetable.trapframe.user_registers == before.pagetable.trapframe.user_registers,
        during.resumed().signal_handler_state is None,
{
}

/// A file that has just been opened is the one found under its number.
pub proof fn law_opened_found(ofile: Seq<Option<File>>, file: File)
    requires
        free_fd(ofile, 0) is Some,
    ensures
        0 <= free_fd(ofile, 0)->0 < ofile.len(),
        ofile[free_fd(ofile, 0)->0] is None,
        ofile.update(free_fd(ofile, 0)->0, Some(file))[free_fd(ofile, 0)->0] == Some(file),
        forall|fd: int| 0 <= fd < free_fd(ofile, 0)->0 ==> #[trigger] ofile[fd] is Some,
{
    lemma_free_fd(ofile, 0);
}

proof fn lemma_free_fd(ofile: Seq<Option<File>>, k: nat)
    ensures
        match free_fd(ofile, k) {
            Some(fd) => {
                &&& k <= fd < ofile.len()
                &&& ofile[fd] is None
                &&& forall|j: int| k <= j < fd ==> #[trigger] ofile[j] is Some
            },
            None => forall|j: int| k <= j < ofile.len() ==> #[trigger] ofile[j] is Some,
        },
    decreases ofile.len() - k,
{
    if k < ofile.len() && ofile[k as int] is Some {
        lemma_free_fd(ofile, k + 1);
    }
}

/// Per-process state.
pub struct Proc {
    /// Process shared data
    pub shared: ProcShared,
    /// Parent process, by its place in the process table
    pub parent: Option<usize>,
    /// `true` if `private` is borrowed.
    pub private_borrowed: bool,
    /// Process private data.
    pub private: Option<ProcPrivateData>,
}

impl Proc {
    /// A process that there is not.
    pub fn new() -> (r: Self)
        ensures
            r.is_unused(),
            r.shared.0.wf(),
            !r.shared.0.locked,
            r.data().alarm is None,
            r.data().context == Context::start(0, 0),
            !r.private_borrowed,
            r.private is None,
    {
        Proc {
            shared: ProcShared::new(),
            parent: None,
            private_borrowed: false,
            private: None,
        }
    }

    /// What other processes can access.
    pub open spec fn data(self) -> ProcSharedData {
        self.shared.0.value
    }

    /// The process with its lock held by a CPU.
    pub open spec fn locked_by(self, id: usize) -> Self {
        Proc {
            shared: ProcShared(SpinLock { locked: true, cpuid: id, value: self.data() }),
            ..self
        }
    }

    /// The process when it has got its number.
    pub open spec fn begun(self, pid: ProcId) -> Self {
        Proc {
            shared: ProcShared(
                SpinLock {
                    value: ProcSharedData {
                        pid: Some(pid),
                        state: ProcState::Used,
                        ..self.data()
                    },
                    ..self.shared.0
                },
            ),
            ..self
        }
    }

    /// Whether nothing is left of the process.
    pub open spec fn is_unused(self) -> bool {
        &&& self.data().state == ProcState::Unused
        &&& self.data().pid is None
        &&& name_of(self.data().name) == Seq::<u8>::empty()
        &&& !self.data().killed
        &&& self.parent is None
    }

    /// Returns what other processes can access.
    pub fn shared(&self) -> (r: &ProcShared)
        ensures
            *r == self.shared,
    {
        &self.shared
    }

    /// Gives the process its private data, which counts as borrowed.
    pub fn init_private(&mut self, data: ProcPrivateData)
        requires
            !old(self).private_borrowed,
            old(self).private is None,
        ensures
            *final(self) == (Proc { private_borrowed: true, private: Some(data), ..*old(self) }),
    {
        self.private_borrowed = true;
        self.private = Some(data);
    }

    /// Borrows the private data. There is none if the process has exited.
    pub fn borrow_private(&mut self) -> (r: Option<&mut ProcPrivateData>)
        requires
            !old(self).private_borrowed,
        ensures
            r is Some <==> old(self).private is Some,
            r is None ==> *final(self) == *old(self),
            r matches Some(private) ==> {
                &&& *private == old(self).private->0
                &&& *final(self) == (Proc {
                    private_borrowed: true,
                    private: Some(*final(private)),
                    ..*old(self)
                })
            },
    {
        if self.private.is_none() {
            return None;
        }
        self.private_borrowed = true;
        self.private.as_mut()
    }

    /// Gives the private data back.
    pub fn return_private(&mut self)
        requires
            old(self).private_borrowed,
        ensures
            *final(self) == (Proc { private_borrowed: false, ..*old(self) }),
    {
        self.private_borrowed = false;
    }

    /// Takes the private data away for good. The process must have closed its
    /// files and left its directory.
    pub fn remove_private(&mut self) -> (r: ProcPrivateData)
        requires
            old(self).private_borrowed,
            old(self).private matches Some(private) && private.cwd is None && forall|i: int|
                0 <= i < private.ofile@.len() ==> #[trigger] private.ofile@[i] is None,
        ensures
            old(self).private == Some(r),
            *final(self) == (Proc { private_borrowed: false, private: None, ..*old(self) }),
    {
        self.private_borrowed = false;
        match self.private.take() {
            Some(private) => private,
            None => vstd::pervasive::unreached(),
        }
    }

    /// Whether the process is a child of the process at a place in the table.
    pub fn is_child_of(&self, parent: usize) -> (r: bool)
        ensures
            r == (self.parent == Some(parent)),
    {
        match self.parent {
            Some(p) => p == parent,
            None => false,
        }
    }

    /// Sets the parent of the process.
    pub fn set_parent(&mut self, parent: usize)
        ensures
            *final(self) == (Proc { parent: Some(parent), ..*old(self) }),
    {
        self.parent = Some(parent);
    }

    /// Gives the place of the process in the table back. Its lock must be held.
    pub fn free(&mut self)
        requires
            old(self).shared.0.locked,
        ensures
            final(self).is_unused(),
            final(self).shared.0.locked,
            final(self).shared.0.cpuid == old(self).shared.0.cpuid,
            final(self).data().alarm == old(self).data().alarm,
            final(self).data().context == old(self).data().context,
            final(self).private_borrowed == old(self).private_borrowed,
            final(self).private == old(self).private,
    {
        self.parent = None;
        self.shared.0.value.pid = None;
        clear_name(&mut self.shared.0.value.name);
        self.shared.0.value.killed = false;
        self.shared.0.value.state = ProcState::Unused;
    }

    /// Whether a process that is scheduled for the first time returns to user
    /// space; otherwise it has exited already, and gives up the CPU.
    ///
    /// Its lock is still held from scheduling it, and is given back.
    pub fn forkret(&mut self, hart: &mut Hart) -> (r: bool)
        requires
            !old(self).private_borrowed,
            old(hart).wf(),
            old(hart).state.push_depth > 0,
            old(self).shared.0.held_by(old(hart).id),
        ensures
            r == old(self).private is Some,
            final(self).private == old(self).private,
            final(self).data() == old(self).data(),
            final(self).shared.0.wf(),
            !final(self).shared.0.locked,
            final(self).parent == old(self).parent,
            final(self).private_borrowed == r,
            *final(hart) == old(hart).popped(),
            final(hart).wf(),
    {
        let guard: SpinLockGuard = self.shared.remember_locked(hart);
        self.shared.unlock(guard, hart);
        match self.borrow_private() {
            Some(_) => true,
            None => false,
        }
    }
}

/// The process table.
pub struct ProcTable {
    pub procs: Vec<Proc>,
    /// The number of the next process; zero if all have been given out.
    pub next_pid: u32,
}

/// How far a search for an unused place in the table has come: the place that is
/// looked at next, and what the CPU waits with for its lock, if it does.
#[derive(Debug)]
pub struct Scan {
    pub next: usize,
    pub waiting: Option<Guard>,
}

impl Scan {
    /// A search that begins.
    pub fn new() -> (r: Self)
        ensures
            r.next == 0,
            r.waiting is None,
    {
        Scan { next: 0, waiting: None }
    }

    /// Whether the search can go on, on a CPU.
    pub open spec fn wf(self, procs: Seq<Proc>, hart: Hart) -> bool {
        match self.waiting {
            None => hart.state.push_depth < NCPU,
            Some(guard) => guard.cpuid == hart.id && 0 < hart.state.push_depth <= NCPU && self.next
                < procs.len(),
        }
    }

    /// The CPU when it holds a lock or waits for one.
    pub open spec fn holding(self, hart: Hart) -> Hart {
        holding(self.waiting, hart)
    }
}

/// What a search comes to.
#[derive(Debug)]
pub enum ScanStep {
    /// A place is unused, and its lock is held now.
    Found(usize, SpinLockGuard),
    /// No place is unused.
    NoFree,
    /// The search goes on as soon as a lock is given back.
    Spin(Scan),
}

/// What a search comes to, as far as the table goes.
pub enum Scanned {
    Found(int),
    NoFree,
    Spin(int),
}

/// What a search from the `k`-th place on comes to.
pub open spec fn scan_from(procs: Seq<Proc>, k: int) -> Scanned
    decreases procs.len() - k,
{
    if k >= procs.len() {
        Scanned::NoFree
    } else if procs[k].shared.0.locked {
        Scanned::Spin(k)
    } else if procs[k].data().state == ProcState::Unused {
        Scanned::Found(k)
    } else {
        scan_from(procs, k + 1)
    }
}

/// A process that is being made: its place in the table, its number, and its lock,
/// which is held.
#[derive(Debug)]
pub struct Embryo {
    pub place: usize,
    pub pid: ProcId,
    pub guard: SpinLockGuard,
}

/// What making a process comes to.
#[derive(Debug)]
pub enum AllocStep {
    /// A page table is made for the process, and it is gone on with
    /// [`ProcTable::finish_allocate`].
    MakeTable(Embryo),
    Failed(KernelError),
    /// The search for a place goes on as soon as a lock is given back.
    Spin(Scan),
}

/// The number behind a process number; zero if it is the last one.
pub open spec fn next_number(pid: u32) -> u32 {
    if pid == u32::MAX {
        0
    } else {
        (pid + 1) as u32
    }
}

impl ProcTable {
    /// A place in the table that is unused holds nothing; numbers are given once.
    pub open spec fn wf(self) -> bool {
        &&& self.procs@.len() <= NPROC
        &&& forall|i: int| 0 <= i < self.procs@.len() ==> (#[trigger] self.procs@[i]).shared.0.wf()
        &&& forall|i: int|
            0 <= i < self.procs@.len() && (#[trigger] self.procs@[i]).data().state
                == ProcState::Unused ==> {
                &&& self.procs@[i].private is None
                &&& !self.procs@[i].private_borrowed
            }
        &&& forall|i: int|
            0 <= i < self.procs@.len() ==> ((#[trigger] self.procs@[i]).data().pid matches Some(
                pid,
            ) ==> self.next_pid == 0 || pid.0 < self.next_pid)
    }

    /// Gives out the next process number.
    pub fn allocate_pid(&mut self) -> (r: ProcId)
        requires
            old(self).wf(),
            old(self).next_pid > 0,
        ensures
            final(self).wf(),
            final(self).procs == old(self).procs,
            final(self).next_pid == next_number(old(self).next_pid),
            r.0 == old(self).next_pid,
    {
        let pid: u32 = self.next_pid;
        self.next_pid = pid.wrapping_add(1);
        ProcId(pid)
    }

    /// Whether a CPU holds none of the locks.
    pub open spec fn none_held_by(self, id: usize) -> bool {
        forall|i: int|
            0 <= i < self.procs@.len() ==> !(#[trigger] self.procs@[i]).shared.0.held_by(id)
    }

    /// Finds an unused place in the table, and takes its lock.
    pub fn lock_unused_proc(&mut self, hart: &mut Hart, scan: Scan) -> (r: ScanStep)
        requires
            old(self).wf(),
            old(hart).wf(),
            old(hart).id != INVALID_CPUID,
            old(self).none_held_by(old(hart).id),
            scan.wf(old(self).procs@, *old(hart)),
        ensures
            final(self).wf(),
            final(hart).wf(),
            final(self).next_pid == old(self).next_pid,
            match scan_from(old(self).procs@, scan.next as int) {
                Scanned::Found(i) => {
                    &&& r matches ScanStep::Found(k, guard)
                    &&& k == i
                    &&& 0 <= i < old(self).procs@.len()
                    &&& old(self).procs@[i].data().state == ProcState::Unused
                    &&& guard.cpuid == old(hart).id
                    &&& *final(hart) == scan.holding(*old(hart))
                    &&& final(self).procs@ == old(self).procs@.update(
                        i,
                        old(self).procs@[i].locked_by(old(hart).id),
                    )
                },
                Scanned::NoFree => {
                    &&& r is NoFree
                    &&& *final(hart) == (if scan.next < old(self).procs@.len() {
                        scan.holding(*old(hart)).popped()
                    } else {
                        *old(hart)
                    })
                    &&& final(self).procs@ == old(self).procs@
                },
                Scanned::Spin(i) => {
                    &&& r matches ScanStep::Spin(next)
                    &&& next.next == i
                    &&& next.waiting is Some
                    &&& next.wf(final(self).procs@, *final(hart))
                    &&& *final(hart) == scan.holding(*old(hart))
                    &&& final(self).procs@ == old(self).procs@
                },
            },
    {
        let ghost procs = self.procs@;
        let ghost held = scan.holding(*hart);
        let ghost first = scan.next;
        let mut k: usize = scan.next;
        let mut waiting: Option<Guard> = scan.waiting;
        while k < self.procs.len()
            invariant
                self.wf(),
                self.procs@ == procs,
                procs == old(self).procs@,
                self.next_pid == old(self).next_pid,
                first <= k,
                hart.wf(),
                hart.id == old(hart).id,
                hart.id != INVALID_CPUID,
                held.id == hart.id,
                held.wf(),
                0 < held.state.push_depth <= NCPU,
                first == scan.next,
                held == scan.holding(*old(hart)),
                self.none_held_by(hart.id),
                scan_from(procs, first as int) == scan_from(procs, k as int),
                waiting is None ==> hart.pushed() == held && hart.state.push_depth < NCPU,
                waiting matches Some(guard) ==> guard.cpuid == hart.id && *hart == held,
                k == first ==> *hart == *old(hart),
                k > first ==> waiting is None && *hart == held.popped() && k <= procs.len(),
            decreases procs.len() - k,
        {
            assert(!self.procs@[k as int].shared.0.held_by(hart.id));
            match self.procs[k].shared.lock(hart, waiting) {
                Err(guard) => {
                    assert(self.procs@ =~= procs);
                    return ScanStep::Spin(Scan { next: k, waiting: Some(guard) });
                },
                Ok(guard) => {
                    let unused: bool = match self.procs[k].shared.0.value.state {
                        ProcState::Unused => true,
                        _ => false,
                    };
                    if unused {
                        assert(self.procs@ =~= procs.update(
                            k as int,
                            procs[k as int].locked_by(hart.id),
                        ));
                        return ScanStep::Found(k, guard);
                    }
                    self.procs[k].shared.unlock(guard, hart);
                    waiting = None;
                    assert(self.procs@ =~= procs);
                },
            }
            k = k + 1;
        }
        ScanStep::NoFree
    }

    /// Begins to make a new process: finds a place for it, whose lock is held from then
    /// on, and gives it a number.
    pub fn allocate(&mut self, hart: &mut Hart, scan: Scan) -> (r: AllocStep)
        requires
            old(self).wf(),
            scan_from(old(self).procs@, scan.next as int) is Found ==> old(self).next_pid > 0,
            old(hart).wf(),
            old(hart).id != INVALID_CPUID,
            old(self).none_held_by(old(hart).id),
            scan.wf(old(self).procs@, *old(hart)),
        ensures
            final(self).wf(),
            final(hart).wf(),
            match scan_from(old(self).procs@, scan.next as int) {
                Scanned::NoFree => {
                    &&& r == AllocStep::Failed(KernelError::NoFreeProc)
                    &&& *final(hart) == (if scan.next < old(self).procs@.len() {
                        scan.holding(*old(hart)).popped()
                    } else {
                        *old(hart)
                    })
                    &&& final(self).procs@ == old(self).procs@
                    &&& final(self).next_pid == old(self).next_pid
                },
                Scanned::Spin(i) => {
                    &&& r matches AllocStep::Spin(next)
                    &&& next.next == i
                    &&& next.waiting is Some
                    &&& next.wf(final(self).procs@, *final(hart))
                    &&& *final(hart) == scan.holding(*old(hart))
                    &&& final(self).procs@ == old(self).procs@
                    &&& final(self).next_pid == old(self).next_pid
                },
                Scanned::Found(i) => {
                    &&& r matches AllocStep::MakeTable(embryo)
                    &&& embryo.place == i
                    &&& embryo.pid == ProcId(old(self).next_pid)
                    &&& embryo.guard.cpuid == old(hart).id
                    &&& *final(hart) == scan.holding(*old(hart))
                    &&& final(self).next_pid == next_number(old(self).next_pid)
                    &&& 0 <= i < old(self).procs@.len()
                    &&& final(self).procs@ == old(self).procs@.update(
                        i,
                        old(self).procs@[i].locked_by(old(hart).id).begun(
                            ProcId(old(self).next_pid),
                        ),
                    )
                    &&& final(self).procs@[i].private is None
                    &&& !final(self).procs@[i].private_borrowed
                },
            },
            place_taken(*old(self), *final(self), scan.next, *old(hart), r),
    {
        let (i, guard) = match self.lock_unused_proc(hart, scan) {
            ScanStep::Found(i, guard) => (i, guard),
            ScanStep::NoFree => {
                return AllocStep::Failed(KernelError::NoFreeProc);
            },
            ScanStep::Spin(next) => {
                return AllocStep::Spin(next);
            },
        };
        let ghost found = self.procs@[i as int];
        let pid: ProcId = self.allocate_pid();
        self.procs[i].shared.0.value.pid = Some(pid);
        self.procs[i].shared.0.value.state = ProcState::Used;
        assert(self.procs@[i as int] == found.begun(pid));
        assert(self.procs@ =~= old(self).procs@.update(i as int, found.begun(pid)));
        AllocStep::MakeTable(Embryo { place: i, pid, guard })
    }

    /// Goes on making a process, once a page table has been made for it, or has not. The
    /// process is then set up to run in the kernel from `forkret` on. Returns its
    /// place in the table, with its lock held.
    ///
    /// Its private data counts as borrowed.
    pub fn finish_allocate(
        &mut self,
        embryo: Embryo,
        table: Result<UserPageTable, KernelError>,
        forkret: u64,
        hart: &mut Hart,
    ) -> (r: Result<(usize, SpinLockGuard), KernelError>)
        requires
            old(self).wf(),
            embryo.place < old(self).procs@.len(),
            old(hart).wf(),
            old(hart).state.push_depth > 0,
            embryo.guard.cpuid == old(hart).id,
            old(self).procs@[embryo.place as int].shared.0.held_by(old(hart).id),
            old(self).procs@[embryo.place as int].data().state != ProcState::Unused,
            old(self).procs@[embryo.place as int].private is None,
            !old(self).procs@[embryo.place as int].private_borrowed,
        ensures
            final(self).wf(),
            final(hart).wf(),
            final(self).next_pid == old(self).next_pid,
            final(self).procs@.len() == old(self).procs@.len(),
            forall|j: int|
                0 <= j < old(self).procs@.len() && j != embryo.place
                    ==> #[trigger] final(self).procs@[j] == old(self).procs@[j],
            ({
                let i = embryo.place as int;
                let before = old(self).procs@[i];
                let p = final(self).procs@[i];
                match table {
                    Err(e) => {
                        &&& r == Err::<(usize, SpinLockGuard), KernelError>(e)
                        &&& p.is_unused()
                        &&& p.private is None
                        &&& p.data().alarm == before.data().alarm
                        &&& p.data().context == before.data().context
                        &&& !p.shared.0.locked
                        &&& *final(hart) == old(hart).popped()
                    },
                    Ok(table) => {
                        &&& r matches Ok(made)
                        &&& made.0 == i
                        &&& made.1.cpuid == old(hart).id
                        &&& *final(hart) == *old(hart)
                        &&& p.shared.0.held_by(old(hart).id)
                        &&& p.data() == (ProcSharedData {
                            context: Context::start(
                                forkret,
                                (TRAMPOLINE - (i + 1) * KSTACK_STRIDE + KSTACK_PAGES * PAGE_SIZE) as u64,
                            ),
                            ..before.data()
                        })
                        &&& p.parent == before.parent
                        &&& p.private_borrowed
                        &&& p.private matches Some(private)
                        &&& private.pid == embryo.pid
                        &&& private.kstack.0 == TRAMPOLINE - (i + 1) * KSTACK_STRIDE
                        &&& private.pagetable == table
                        &&& private.ofile@ == Seq::new(NOFILE as nat, |k: int| None::<File>)
                        &&& private.cwd is None
                        &&& private.trace_mask == 0
                        &&& private.signal_handler_state is None
                    },
                }
            }),
            table_made(*old(self), *final(self), embryo, table, forkret, *old(hart), r),
    {
        let i: usize = embryo.place;
        let pagetable: UserPageTable = match table {
            Ok(pagetable) => pagetable,
            Err(e) => {
                self.procs[i].free();
                self.procs[i].shared.unlock(embryo.guard, hart);
                return Err(e);
            },
        };
        let stack: VirtAddr = kstack(i);
        let private = ProcPrivateData {
            pid: embryo.pid,
            kstack: stack,
            pagetable,
            ofile: no_files(),
            cwd: None,
            trace_mask: 0,
            signal_handler_state: None,
        };
        self.procs[i].shared.0.value.context = Context::new(
            forkret,
            stack.addr() + KSTACK_PAGES * PAGE_SIZE,
        );
        self.procs[i].init_private(private);
        Ok((i, embryo.guard))
    }
}

/// Whether a place has been looked for, for a new process, from `next` on.
pub open spec fn place_taken(
    before: ProcTable,
    after: ProcTable,
    next: usize,
    hart: Hart,
    r: AllocStep,
) -> bool {
    match scan_from(before.procs@, next as int) {
        Scanned::NoFree => {
            &&& r is Failed
            &&& r->Failed_0 == KernelError::NoFreeProc
            &&& after.procs@ == before.procs@
            &&& after.next_pid == before.next_pid
        },
        Scanned::Spin(_) => {
            &&& r is Spin
            &&& after.procs@ == before.procs@
            &&& after.next_pid == before.next_pid
        },
        Scanned::Found(i) => {
            &&& r is MakeTable
            &&& r->MakeTable_0.place == i
            &&& r->MakeTable_0.pid == ProcId(before.next_pid)
            &&& after.next_pid == next_number(before.next_pid)
            &&& after.procs@ == before.procs@.update(
                i,
                before.procs@[i].locked_by(hart.id).begun(ProcId(before.next_pid)),
            )
        },
    }
}

/// A process gets the first place that is unused, and the next number, which no other one
/// gets after it. There is no place if and only if all are in use. No other process changes.
pub proof fn law_place_taken(
    before: ProcTable,
    after: ProcTable,
    next: usize,
    hart: Hart,
    r: AllocStep,
    j: int,
)
    requires
        place_taken(before, after, next, hart, r),
        0 < before.next_pid < u32::MAX,
    ensures
        r matches AllocStep::MakeTable(embryo) ==> {
            let i = embryo.place as int;
            &&& next <= i < before.procs@.len()
            &&& before.procs@[i].shared.0.value.state is Unused
            &&& !before.procs@[i].shared.0.locked
            &&& next <= j < i ==> !(before.procs@[j].shared.0.value.state is Unused)
            &&& embryo.pid.0 == before.next_pid
            &&& after.next_pid == before.next_pid + 1
            &&& after.procs@[i].shared.0.value.pid == Some(embryo.pid)
            &&& after.procs@[i].shared.0.value.state is Used
            &&& after.procs@[i].shared.0.locked
            &&& after.procs@[i].shared.0.cpuid == hart.id
            &&& 0 <= j < before.procs@.len() && j != i ==> after.procs@[j] == before.procs@[j]
        },
        r is Failed ==> (next <= j < before.procs@.len() ==> !(
        before.procs@[j].shared.0.value.state is Unused)),
        !(r is MakeTable) ==> after.procs@ == before.procs@ && after.next_pid == before.next_pid,
{
    law_scan(before.procs@, next as int);
}

/// Whether a process has been gone on with, once a page table has been made for it, or has
/// not.
pub open spec fn table_made(
    before: ProcTable,
    after: ProcTable,
    embryo: Embryo,
    table: Result<UserPageTable, KernelError>,
    forkret: u64,
    hart: Hart,
    r: Result<(usize, SpinLockGuard), KernelError>,
) -> bool {
    let i = embryo.place as int;
    let was = before.procs@[i];
    let p = after.procs@[i];
    &&& forall|j: int|
        0 <= j < before.procs@.len() && j != i ==> #[trigger] after.procs@[j] == before.procs@[j]
    &&& match table {
        Err(e) => {
            &&& r == Err::<(usize, SpinLockGuard), KernelError>(e)
            &&& p.is_unused()
            &&& p.private is None
            &&& !p.shared.0.locked
        },
        Ok(table) => {
            &&& r is Ok && r->Ok_0.0 == i
            &&& p.shared.0.held_by(hart.id)
            &&& p.data() == (ProcSharedData {
                context: Context::start(
                    forkret,
                    (TRAMPOLINE - (i + 1) * KSTACK_STRIDE + KSTACK_PAGES * PAGE_SIZE) as u64,
                ),
                ..was.data()
            })
            &&& p.private_borrowed
            &&& p.private matches Some(private)
            &&& private.pid == embryo.pid
            &&& private.kstack.0 == TRAMPOLINE - (i + 1) * KSTACK_STRIDE
            &&& private.pagetable == table
            &&& private.ofile@ == Seq::new(NOFILE as nat, |k: int| None::<File>)
            &&& private.cwd is None
            &&& private.trace_mask == 0
            &&& private.signal_handler_state is None
        },
    }
}

/// A new process has the number that it was given and the page table that was made for it, a
/// kernel stack of its own, at whose end it begins, with the code that it is to run, and
/// nothing else: no file, no directory, no signal handler. If there is no page table, its
/// place is unused again. No other process changes.
pub proof fn law_new_process(
    before: ProcTable,
    after: ProcTable,
    embryo: Embryo,
    table: Result<UserPageTable, KernelError>,
    forkret: u64,
    hart: Hart,
    r: Result<(usize, SpinLockGuard), KernelError>,
    fd: RawFd,
)
    requires
        embryo.place < before.procs@.len() <= 64,
        table_made(before, after, embryo, table, forkret, hart, r),
    ensures
        r is Ok <==> table is Ok,
        forall|j: int|
            0 <= j < before.procs@.len() && j != embryo.place ==> #[trigger] after.procs@[j]
                == before.procs@[j],
        ({
            let p = after.procs@[embryo.place as int];
            let shared = p.shared.0.value;
            &&& table is Err ==> shared.state is Unused && shared.pid is None && p.private is None
                && !p.shared.0.locked && p.parent is None
            &&& table matches Ok(table) ==> {
                let private = p.private->0;
                &&& p.private is Some
                &&& p.shared.0.locked
                &&& shared.pid == before.procs@[embryo.place as int].shared.0.value.pid
                &&& shared.state == before.procs@[embryo.place as int].shared.0.value.state
                &&& private.pid == embryo.pid
                &&& private.pagetable == table
                &&& shared.context.ra == forkret
                &&& shared.context.sp == private.kstack.0 + 4 * 4096
                &&& shared.context.sp + 4096 == TRAMPOLINE - embryo.place * 0x5000
                &&& shared.context.s0 == 0
                &&& private.file_at(fd) is None
                &&& private.ofile@.len() == 16
                &&& private.cwd is None
                &&& private.trace_mask == 0
                &&& private.signal_handler_state is None
            }
        }),
{
}

/// A table of open files in which none is open.
fn no_files() -> (r: Vec<Option<File>>)
    ensures
        r@ == Seq::new(NOFILE as nat, |k: int| None::<File>),
{
    let mut ofile: Vec<Option<File>> = Vec::new();
    while ofile.len() < NOFILE
        invariant
            ofile@.len() <= NOFILE,
            forall|k: int| 0 <= k < ofile@.len() ==> #[trigger] ofile@[k] is None,
        decreases NOFILE - ofile@.len(),
    {
        ofile.push(None);
    }
    ofile
}

/// Processes have different numbers.
pub open spec fn pids_differ(procs: Seq<Proc>) -> bool {
    forall|i: int, j: int|
        0 <= i < procs.len() && 0 <= j < procs.len() && i != j && (#[trigger] procs[i]).data().pid
            is Some ==> procs[i].data().pid != (#[trigger] procs[j]).data().pid
}

/// A new process has a number that no other process has.
pub proof fn law_new_pid(before: ProcTable, after: ProcTable, i: int)
    requires
        before.wf(),
        before.next_pid > 0,
        pids_differ(before.procs@),
        after.procs@.len() == before.procs@.len(),
        0 <= i < before.procs@.len(),
        after.procs@[i].data().pid == Some(ProcId(before.next_pid)),
        forall|j: int|
            0 <= j < before.procs@.len() && j != i ==> #[trigger] after.procs@[j] == before.procs@[j],
    ensures
        pids_differ(after.procs@),
{
    assert forall|a: int, b: int|
        0 <= a < after.procs@.len() && 0 <= b < after.procs@.len() && a != b && (
        #[trigger] after.procs@[a]).data().pid is Some implies after.procs@[a].data().pid != (
    #[trigger] after.procs@[b]).data().pid by {
        if a != i {
            assert(after.procs@[a] == before.procs@[a]);
        }
        if b != i {
            assert(after.procs@[b] == before.procs@[b]);
        }
    }
}

/// A process that is sent to a signal handler goes on there, with the registers that it
/// has; nothing else of it changes. One that is in a handler already is left alone.
pub proof fn law_signal_delivered(before: ProcPrivateData, handler: VirtAddr)
    ensures
        ({
            let after = before.interrupted(handler);
            &&& before.signal_handler_state is Some ==> after == before
            &&& before.signal_handler_state is None ==> {
                &&& after.signal_handler_state is Some
                &&& after.pagetable.trapframe.epc == handler.0
                &&& after.pagetable.trapframe == (TrapFrame {
                    epc: handler.0,
                    ..before.pagetable.trapframe
                })
            }
            &&& after.pagetable.pt == before.pagetable.pt
            &&& after.pagetable.program_break == before.pagetable.program_break
            &&& after.pid == before.pid
            &&& after.kstack == before.kstack
            &&& after.ofile == before.ofile
            &&& after.cwd == before.cwd
            &&& after.trace_mask == before.trace_mask
        }),
{
}

/// Going back from a signal handler changes nothing but where the process goes on and with
/// which registers; it can be sent to a handler again afterwards.
pub proof fn law_signal_returns(during: ProcPrivateData, handler: VirtAddr)
    requires
        during.signal_handler_state is Some,
    ensures
        ({
            let after = during.resumed();
            &&& after.signal_handler_state is None
            &&& after.pagetable.trapframe == (TrapFrame {
                epc: during.signal_handler_state->0.context.epc,
                user_registers: during.signal_handler_state->0.context.user_registers,
                ..during.pagetable.trapframe
            })
            &&& after.pagetable.pt == during.pagetable.pt
            &&& after.pagetable.program_break == during.pagetable.program_break
            &&& after.pid == during.pid
            &&& after.kstack == during.kstack
            &&& after.ofile == during.ofile
            &&& after.cwd == during.cwd
            &&& after.trace_mask == during.trace_mask
            &&& after.interrupted(handler).pagetable.trapframe.epc == handler.0
        }),
{
}

/// A search finds the first place that is unused. It stops before it at a place whose lock
/// somebody holds, and finds none if all places are in use.
pub proof fn law_scan(procs: Seq<Proc>, k: int)
    requires
        0 <= k,
    ensures
        match scan_from(procs, k) {
            Scanned::Found(i) => {
                &&& k <= i < procs.len()
                &&& !procs[i].shared.0.locked
                &&& procs[i].shared.0.value.state is Unused
                &&& forall|j: int|
                    k <= j < i ==> !(#[trigger] procs[j]).shared.0.locked
                        && !(procs[j].shared.0.value.state is Unused)
            },
            Scanned::Spin(i) => {
                &&& k <= i < procs.len()
                &&& procs[i].shared.0.locked
                &&& forall|j: int|
                    k <= j < i ==> !(#[trigger] procs[j]).shared.0.locked
                        && !(procs[j].shared.0.value.state is Unused)
            },
            Scanned::NoFree => forall|j: int|
                k <= j < procs.len() ==> !(#[trigger] procs[j]).shared.0.locked
                    && !(procs[j].shared.0.value.state is Unused),
        },
    decreases procs.len() - k,
{
    if k < procs.len() && !procs[k].shared.0.locked && !(procs[k].shared.0.value.state is Unused) {
        law_scan(procs, k + 1);
    }
}

/// A process whose place has been found has the number that it was given and is in use from
/// then on, with its lock held; all else of it is as before.
pub proof fn law_begun(p: Proc, id: usize, pid: ProcId)
    ensures
        ({
            let made = p.locked_by(id).begun(pid);
            &&& made.shared.0.locked
            &&& made.shared.0.cpuid == id
            &&& made.shared.0.value.pid == Some(pid)
            &&& made.shared.0.value.state is Used
            &&& made.shared.0.value.name == p.shared.0.value.name
            &&& made.shared.0.value.killed == p.shared.0.value.killed
            &&& made.shared.0.value.alarm == p.shared.0.value.alarm
            &&& made.shared.0.value.context == p.shared.0.value.context
            &&& made.parent == p.parent
            &&& made.private == p.private
            &&& made.private_borrowed == p.private_borrowed
        }),
{
}

/// Process numbers are given out one after the other, and none twice: after the last one
/// there is no further one.
pub proof fn law_next_number(a: u32, b: u32)
    requires
        0 < a,
        0 < b,
    ensures
        a < u32::MAX ==> next_number(a) == a + 1,
        next_number(u32::MAX) == 0,
        a != b ==> next_number(a) != next_number(b),
{
}

/// What a process has under a number is what it has opened under it: opening a file under
/// the lowest free number and closing that number again leaves all files as they were.
pub proof fn law_open_close(ofile: Seq<Option<File>>, file: File, other: int)
    ensures
        match free_fd(ofile, 0) {
            Some(fd) => {
                let opened = ofile.update(fd, Some(file));
                &&& 0 <= fd < ofile.len()
                &&& ofile[fd] is None
                &&& opened.update(fd, None) == ofile
                &&& 0 <= other < ofile.len() && other != fd ==> opened[other] == ofile[other]
                &&& other < fd && 0 <= other ==> ofile[other] is Some
                &&& free_fd(opened.update(fd, None), 0) == Some(fd)
            },
            None => 0 <= other < ofile.len() ==> ofile[other] is Some,
        },
{
    lemma_free_fd(ofile, 0);
    match free_fd(ofile, 0) {
        Some(fd) => {
            assert(ofile.update(fd, Some(file)).update(fd, None) =~= ofile);
        },
        None => {},
    }
}

/// A number names a file if and only if one is open under it; a number beyond the table
/// names none.
pub proof fn law_file_at(p: ProcPrivateData, fd: RawFd)
    ensures
        fd.0 >= p.ofile@.len() ==> p.file_at(fd) is None,
        fd.0 < p.ofile@.len() ==> p.file_at(fd) == p.ofile@[fd.0 as int],
{
}

/// A time that is put off lies as much later as was asked for, unless there is no such time:
/// then it is the last one.
pub proof fn law_later(t: Uptime, dur: u64)
    ensures
        t.0 + dur <= u64::MAX ==> t.plus(dur).0 == t.0 + dur,
        t.0 + dur > u64::MAX ==> t.plus(dur).0 == u64::MAX,
{
}

/// What a change of the open files leaves alone, and what a change of the name does.
pub proof fn law_frames(
    a: ProcPrivateData,
    b: ProcPrivateData,
    c: ProcSharedData,
    d: ProcSharedData,
)
    ensures
        a.same_but_files(b) ==> a == (ProcPrivateData { ofile: a.ofile, ..b }),
        c.same_but_name(d) ==> c == (ProcSharedData { name: c.name, ..d }),
{
}

/// A new context has the return address and the stack that it was given, and nothing else.
pub proof fn law_context(ra: u64, sp: u64)
    ensures
        Context::start(ra, sp).ra == ra,
        Context::start(ra, sp).sp == sp,
        ({
            let c = Context::start(ra, sp);
            c.s0 == 0 && c.s1 == 0 && c.s2 == 0 && c.s3 == 0 && c.s4 == 0 && c.s5 == 0 && c.s6 == 0
                && c.s7 == 0 && c.s8 == 0 && c.s9 == 0 && c.s10 == 0 && c.s11 == 0
        }),
{
}

/// Nothing is left of a process whose place is unused.
pub proof fn law_unused(p: Proc)
    requires
        p.is_unused(),
    ensures
        p.shared.0.value.state is Unused,
        p.shared.0.value.pid is None,
        name_of(p.shared.0.value.name).len() == 0,
        !p.shared.0.value.killed,
        p.parent is None,
{
}

} // verus!
