//! Locks that processes sleep for.
use super::spin_lock::{
    can_lock, holding, SleepEvent, SpinLock, SpinLockCondVar, TryLockError, WaitAction,
    INVALID_CPUID,
};
use crate::interrupt::{Guard, Hart, NCPU};
use crate::types::ProcId;
use vstd::prelude::*;

verus! {

/// Why a lock could not be taken.
#[derive(Debug, Clone, Copy, PartialEq, Eq, Structural)]
pub enum SleepLockError {
    /// The process that wanted it has been killed.
    LockingProcessAlreadyKilled,
}

/// Who has a lock.
#[derive(Debug, Clone, Copy, PartialEq, Eq, Structural)]
pub struct Holder {
    pub locked: bool,
    /// The process that holds the lock, if it is one that does.
    pub owner: Option<ProcId>,
}

/// A lock that processes sleep for.
pub struct SleepLock<T> {
    /// Who has the lock.
    pub locked: SpinLock<Holder>,
    /// That the lock is given back.
    pub unlocked: SpinLockCondVar,
    pub value: T,
}

/// Stands for a lock that is held.
#[derive(Debug)]
pub struct SleepLockGuard {
    pub owner: Option<ProcId>,
}

/// How far a process has come that wants a lock.
#[derive(Debug)]
pub enum LockStage {
    /// It wants to see who has the lock.
    Look(Option<Guard>),
    /// It has slept since the lock had been given back `since` times, and goes on.
    Awake { since: u64, event: SleepEvent, waiting: Option<Guard> },
}

impl LockStage {
    /// What the CPU has waited with so far.
    pub open spec fn waiting(self) -> Option<Guard> {
        match self {
            LockStage::Look(waiting) => waiting,
            LockStage::Awake { waiting, .. } => waiting,
        }
    }

    /// The same stage, with a CPU that waits.
    pub open spec fn spinning(self, guard: Guard) -> Self {
        match self {
            LockStage::Look(_) => LockStage::Look(Some(guard)),
            LockStage::Awake { since, event, .. } => LockStage::Awake {
                since,
                event,
                waiting: Some(guard),
            },
        }
    }

    /// Whether the process has been killed while it slept.
    pub open spec fn is_killed(self) -> bool {
        self matches LockStage::Awake { event, .. } && event == SleepEvent::Killed
    }

    /// Whether the process has been woken although the lock has not been given back.
    pub open spec fn is_early(self, count: u64) -> bool {
        self matches LockStage::Awake { since, .. } && since == count
    }
}

/// What a process does that wants the lock.
#[derive(Debug)]
pub enum LockAction {
    /// It has the lock.
    Acquired(SleepLockGuard),
    /// Its CPU waits until it can see who has the lock.
    Spin(LockStage),
    /// It sleeps until the lock is given back, which has happened so often.
    Sleep(u64),
    /// It gives up.
    Fail(SleepLockError),
}

impl<T> SleepLock<T> {
    /// Nobody owns a lock that is not locked.
    pub open spec fn wf(self) -> bool {
        &&& self.locked.wf()
        &&& !self.holder().locked ==> self.holder().owner is None
    }

    /// Who has the lock.
    pub open spec fn holder(self) -> Holder {
        self.locked.value
    }

    /// Whether the lock is the same as another one but for who has it.
    pub open spec fn same_but_holder(self, other: Self) -> bool {
        &&& self.unlocked == other.unlocked
        &&& self.value == other.value
        &&& self.locked.locked == other.locked.locked
        &&& self.locked.cpuid == other.locked.cpuid
    }

    /// A lock that nobody holds.
    pub fn new(value: T) -> (r: Self)
        ensures
            r.wf(),
            r.holder() == (Holder { locked: false, owner: None }),
            !r.locked.locked,
            r.unlocked.counter == 0,
            r.value == value,
    {
        SleepLock {
            locked: SpinLock::new(Holder { locked: false, owner: None }),
            unlocked: SpinLockCondVar::new(),
            value,
        }
    }

    /// Takes the lock if nobody holds it, and nobody else is about to.
    pub fn try_lock(&mut self, pid: Option<ProcId>, hart: &mut Hart) -> (r: Result<
        SleepLockGuard,
        TryLockError,
    >)
        requires
            old(self).wf(),
            old(hart).wf(),
            old(hart).state.push_depth < NCPU,
            old(hart).id != INVALID_CPUID,
            !old(self).locked.held_by(old(hart).id),
        ensures
            final(self).wf(),
            final(hart).wf(),
            *final(hart) == old(hart).pushed().popped(),
            final(self).same_but_holder(*old(self)),
            old(self).locked.locked || old(self).holder().locked ==> {
                &&& r == Err::<SleepLockGuard, TryLockError>(TryLockError::Locked)
                &&& final(self).holder() == old(self).holder()
            },
            !old(self).locked.locked && !old(self).holder().locked ==> {
                &&& r matches Ok(guard)
                &&& guard.owner == pid
                &&& final(self).holder() == (Holder { locked: true, owner: pid })
            },
            try_step(*old(self), pid, *final(self), r),
    {
        let guard = match self.locked.try_lock(hart) {
            Ok(guard) => guard,
            Err(e) => {
                return Err(e);
            },
        };
        if self.locked.value.locked {
            self.locked.unlock(guard, hart);
            return Err(TryLockError::Locked);
        }
        self.locked.value = Holder { locked: true, owner: pid };
        self.locked.unlock(guard, hart);
        Ok(SleepLockGuard { owner: pid })
    }

    /// Takes the lock if nobody holds it; otherwise the process sleeps until it is
    /// given back, and tries again. It does not give up even if it is killed.
    pub fn force_wait_lock(&mut self, pid: Option<ProcId>, hart: &mut Hart, stage: LockStage) -> (r:
        LockAction)
        requires
            old(self).wf(),
            can_lock(old(self).locked, stage.waiting(), *old(hart)),
        ensures
            final(self).wf(),
            final(hart).wf(),
            final(self).same_but_holder(*old(self)),
            old(self).locked.locked ==> {
                &&& r matches LockAction::Spin(next)
                &&& exists|guard: Guard|
                    guard.cpuid == old(hart).id && next == #[trigger] stage.spinning(guard)
                &&& final(self).holder() == old(self).holder()
                &&& *final(hart) == holding(stage.waiting(), *old(hart))
            },
            !old(self).locked.locked ==> {
                &&& *final(hart) == holding(stage.waiting(), *old(hart)).popped()
                &&& if stage.is_early(old(self).unlocked.counter) || old(self).holder().locked {
                    &&& r == LockAction::Sleep(old(self).unlocked.counter)
                    &&& final(self).holder() == old(self).holder()
                } else {
                    &&& r matches LockAction::Acquired(guard)
                    &&& guard.owner == pid
                    &&& final(self).holder() == (Holder { locked: true, owner: pid })
                }
            },
            lock_step(*old(self), pid, stage, false, *final(self), r),
    {
        let guard = match stage {
            LockStage::Look(waiting) => match self.locked.lock(hart, waiting) {
                Ok(guard) => guard,
                Err(guard) => {
                    assert(stage.spinning(guard) == LockStage::Look(Some(guard)));
                    return LockAction::Spin(LockStage::Look(Some(guard)));
                },
            },
            LockStage::Awake { since, event, waiting } => match self.unlocked.force_wait(
                since,
                &mut self.locked,
                hart,
                waiting,
            ) {
                WaitAction::Spin(guard) => {
                    assert(stage.spinning(guard) == (LockStage::Awake {
                        since,
                        event,
                        waiting: Some(guard),
                    }));
                    return LockAction::Spin(
                        LockStage::Awake { since, event, waiting: Some(guard) },
                    );
                },
                WaitAction::Sleep => {
                    return LockAction::Sleep(since);
                },
                WaitAction::Done(guard) => guard,
                WaitAction::Fail(guard, _) => guard,
            },
        };
        if self.locked.value.locked {
            let since: u64 = self.unlocked.begin_wait(&mut self.locked, guard, hart);
            return LockAction::Sleep(since);
        }
        self.locked.value = Holder { locked: true, owner: pid };
        self.locked.unlock(guard, hart);
        LockAction::Acquired(SleepLockGuard { owner: pid })
    }

    /// Takes the lock if nobody holds it; otherwise the process sleeps until it is
    /// given back, and tries again, unless it is killed.
    pub fn wait_lock(&mut self, pid: Option<ProcId>, hart: &mut Hart, stage: LockStage) -> (r:
        LockAction)
        requires
            old(self).wf(),
            can_lock(old(self).locked, stage.waiting(), *old(hart)),
        ensures
            final(self).wf(),
            final(hart).wf(),
            final(self).same_but_holder(*old(self)),
            old(self).locked.locked ==> {
                &&& r matches LockAction::Spin(next)
                &&& exists|guard: Guard|
                    guard.cpuid == old(hart).id && next == #[trigger] stage.spinning(guard)
                &&& final(self).holder() == old(self).holder()
                &&& *final(hart) == holding(stage.waiting(), *old(hart))
            },
            !old(self).locked.locked ==> {
                &&& *final(hart) == holding(stage.waiting(), *old(hart)).popped()
                &&& if stage.is_killed() {
                    &&& r == LockAction::Fail(SleepLockError::LockingProcessAlreadyKilled)
                    &&& final(self).holder() == old(self).holder()
                } else if stage.is_early(old(self).unlocked.counter) || old(self).holder().locked {
                    &&& r == LockAction::Sleep(old(self).unlocked.counter)
                    &&& final(self).holder() == old(self).holder()
                } else {
                    &&& r matches LockAction::Acquired(guard)
                    &&& guard.owner == pid
                    &&& final(self).holder() == (Holder { locked: true, owner: pid })
                }
            },
            lock_step(*old(self), pid, stage, true, *final(self), r),
    {
        match stage {
            LockStage::Awake { since, event: SleepEvent::Killed, waiting } => {
                match self.unlocked.wait(
                    since,
                    SleepEvent::Killed,
                    &mut self.locked,
                    hart,
                    waiting,
                ) {
                    WaitAction::Spin(guard) => {
                        assert(stage.spinning(guard) == (LockStage::Awake {
                            since,
                            event: SleepEvent::Killed,
                            waiting: Some(guard),
                        }));
                        LockAction::Spin(
                            LockStage::Awake {
                                since,
                                event: SleepEvent::Killed,
                                waiting: Some(guard),
                            },
                        )
                    },
                    WaitAction::Sleep => LockAction::Sleep(since),
                    WaitAction::Done(guard) | WaitAction::Fail(guard, _) => {
                        self.locked.unlock(guard, hart);
                        LockAction::Fail(SleepLockError::LockingProcessAlreadyKilled)
                    },
                }
            },
            _ => self.force_wait_lock(pid, hart, stage),
        }
    }

    /// Gives the lock back, and lets those know that sleep for it. If somebody else is
    /// looking at who has the lock, the CPU waits first.
    pub fn unlock(&mut self, guard: SleepLockGuard, hart: &mut Hart, waiting: Option<Guard>) -> (r:
        Result<(), (SleepLockGuard, Guard)>)
        requires
            old(self).wf(),
            old(self).holder().locked,
            can_lock(old(self).locked, waiting, *old(hart)),
        ensures
            final(self).wf(),
            final(hart).wf(),
            old(self).locked.locked ==> {
                &&& r matches Err(next)
                &&& next.0 == guard
                &&& next.1.cpuid == old(hart).id
                &&& *final(self) == *old(self)
                &&& *final(hart) == holding(waiting, *old(hart))
            },
            !old(self).locked.locked ==> {
                &&& r is Ok
                &&& final(self).holder() == (Holder { locked: false, owner: None })
                &&& !final(self).locked.locked
                &&& final(self).value == old(self).value
                &&& final(self).unlocked.counter == (if old(self).unlocked.counter == u64::MAX {
                    0
                } else {
                    (old(self).unlocked.counter + 1) as u64
                })
                &&& *final(hart) == holding(waiting, *old(hart)).popped()
            },
            unlock_step(*old(self), *final(self), r),
    {
        match self.locked.lock(hart, waiting) {
            Ok(held) => {
                self.locked.value = Holder { locked: false, owner: None };
                self.unlocked.notify();
                self.locked.unlock(held, hart);
                Ok(())
            },
            Err(spinning) => Err((guard, spinning)),
        }
    }
}

/// Whether a process has tried to take a lock.
pub open spec fn try_step<T>(
    before: SleepLock<T>,
    pid: Option<ProcId>,
    after: SleepLock<T>,
    r: Result<SleepLockGuard, TryLockError>,
) -> bool {
    &&& after.same_but_holder(before)
    &&& match r {
        Ok(guard) => {
            &&& !before.locked.locked && !before.holder().locked
            &&& guard.owner == pid
            &&& after.holder() == (Holder { locked: true, owner: pid })
        },
        Err(_) => {
            &&& before.locked.locked || before.holder().locked
            &&& after.holder() == before.holder()
        },
    }
}

/// Whether a process has taken a lock, or goes on trying to. It gives up when it has been
/// killed just if it is `killable`.
pub open spec fn lock_step<T>(
    before: SleepLock<T>,
    pid: Option<ProcId>,
    stage: LockStage,
    killable: bool,
    after: SleepLock<T>,
    r: LockAction,
) -> bool {
    let fails = killable && stage.is_killed();
    let sleeps = stage.is_early(before.unlocked.counter) || before.holder().locked;
    &&& after.same_but_holder(before)
    &&& match r {
        LockAction::Spin(_) => before.locked.locked && after.holder() == before.holder(),
        LockAction::Fail(_) => {
            &&& !before.locked.locked && fails
            &&& after.holder() == before.holder()
        },
        LockAction::Sleep(since) => {
            &&& !before.locked.locked && !fails && sleeps
            &&& since == before.unlocked.counter
            &&& after.holder() == before.holder()
        },
        LockAction::Acquired(guard) => {
            &&& !before.locked.locked && !fails && !sleeps
            &&& guard.owner == pid
            &&& after.holder() == (Holder { locked: true, owner: pid })
        },
    }
}

/// Whether a process has given a lock back, or its CPU waits first.
pub open spec fn unlock_step<T>(
    before: SleepLock<T>,
    after: SleepLock<T>,
    r: Result<(), (SleepLockGuard, Guard)>,
) -> bool {
    match r {
        Ok(_) => {
            &&& !before.locked.locked && !after.locked.locked
            &&& after.holder() == (Holder { locked: false, owner: None })
            &&& after.value == before.value
            &&& after.unlocked.counter == super::spin_lock::notified(before.unlocked.counter, 1)
        },
        Err(_) => before.locked.locked && after == before,
    }
}

/// As long as a process holds a lock, no other one gets it: whoever wants it sleeps, gives
/// up, or waits to see who has it, and who just tries fails. Neither changes who has it or
/// what it guards.
pub proof fn law_sleep_lock_excludes<T>(
    held: SleepLock<T>,
    pid: Option<ProcId>,
    stage: LockStage,
    killable: bool,
    after: SleepLock<T>,
    r: LockAction,
    tried: Result<SleepLockGuard, TryLockError>,
)
    requires
        held.holder().locked,
    ensures
        lock_step(held, pid, stage, killable, after, r) ==> {
            &&& !(r is Acquired)
            &&& after.holder() == held.holder()
            &&& after.value == held.value
            &&& r is Fail ==> killable && stage.is_killed()
        },
        try_step(held, pid, after, tried) ==> {
            &&& tried is Err
            &&& after.holder() == held.holder()
            &&& after.value == held.value
        },
{
}

/// A lock that is given back belongs to nobody, and whoever looks at it next gets it, with
/// what its holder has left in it: one that comes to it, and one that slept for it since
/// before it was given back.
pub proof fn law_sleep_lock_passed_on<T>(
    held: SleepLock<T>,
    given: SleepLock<T>,
    done: Result<(), (SleepLockGuard, Guard)>,
    pid: Option<ProcId>,
    waiting: Option<Guard>,
    slept: bool,
    killable: bool,
    after: SleepLock<T>,
    r: LockAction,
)
    requires
        unlock_step(held, given, done),
        done is Ok,
        lock_step(
            given,
            pid,
            if slept {
                LockStage::Awake {
                    since: held.unlocked.counter,
                    event: SleepEvent::Woken,
                    waiting,
                }
            } else {
                LockStage::Look(waiting)
            },
            killable,
            after,
            r,
        ),
    ensures
        !given.holder().locked,
        given.holder().owner is None,
        r is Acquired,
        after.holder().locked,
        after.holder().owner == pid,
        after.value == held.value,
{
    super::spin_lock::law_wakeup_not_lost(
        SpinLockCondVar { counter: given.unlocked.counter },
        held.unlocked.counter,
        1,
    );
}

/// A process that goes to sleep for a lock is not left asleep: once the lock has been
/// given back, however often short of a full turn of the count, it does not sleep on
/// for want of that.
pub proof fn law_sleeper_goes_on(since: u64, event: SleepEvent, waiting: Option<Guard>, n: nat)
    requires
        0 < n < 0x1_0000_0000_0000_0000,
    ensures
        !(LockStage::Awake { since, event, waiting }).is_early(
            super::spin_lock::notified(since, n),
        ),
{
    super::spin_lock::law_wakeup_not_lost(
        SpinLockCondVar { counter: super::spin_lock::notified(since, n) },
        since,
        n,
    );
}

/// What stays the same when a lock changes hands, and what a process keeps in mind while its
/// CPU waits.
pub proof fn law_sleep_lock_frames<T>(a: SleepLock<T>, b: SleepLock<T>, stage: LockStage, guard: Guard)
    ensures
        a.same_but_holder(b) ==> a.value == b.value && a.unlocked == b.unlocked && a.locked.locked
            == b.locked.locked && a.locked.cpuid == b.locked.cpuid,
        stage.spinning(guard).waiting() == Some(guard),
        stage.spinning(guard).is_killed() == stage.is_killed(),
        forall|count: u64|
            #[trigger] stage.spinning(guard).is_early(count) == stage.is_early(count),
{
}

} // verus!
