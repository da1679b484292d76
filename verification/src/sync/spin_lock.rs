//! Spin locks, and waiting for something to happen.
//!
//! The CPUs take turns here: each call is one step of one CPU, and a CPU that
//! finds a lock taken tries again in another step.
use crate::interrupt::{pop_disabled, push_disabled, Guard, Hart, NCPU};
use vstd::prelude::*;

verus! {

/// The number of no CPU.
pub const INVALID_CPUID: usize = 0xffff_ffff;

/// Why a lock could not be taken.
#[derive(Debug, Clone, Copy, PartialEq, Eq, Structural)]
pub enum TryLockError {
    /// It is held already.
    Locked,
}

/// A CPU when it holds a lock or waits for one, where `waiting` is what it has waited
/// with so far.
pub open spec fn holding(waiting: Option<Guard>, hart: Hart) -> Hart {
    if waiting is None {
        hart.pushed()
    } else {
        hart
    }
}

/// Whether a CPU can take or wait for a lock.
pub open spec fn can_lock<T>(lock: SpinLock<T>, waiting: Option<Guard>, hart: Hart) -> bool {
    &&& lock.wf()
    &&& hart.wf()
    &&& hart.id != INVALID_CPUID
    &&& !lock.held_by(hart.id)
    &&& match waiting {
        None => hart.state.push_depth < NCPU,
        Some(guard) => guard.cpuid == hart.id && hart.state.push_depth > 0,
    }
}

/// A lock that CPUs wait for without sleeping.
pub struct SpinLock<T> {
    pub locked: bool,
    /// The CPU that holds the lock.
    pub cpuid: usize,
    pub value: T,
}

impl<T> SpinLock<T> {
    /// A lock is held by a CPU just if it is locked.
    pub open spec fn wf(self) -> bool {
        self.locked <==> self.cpuid != INVALID_CPUID
    }

    /// Whether a CPU holds the lock.
    pub open spec fn held_by(self, id: usize) -> bool {
        self.locked && self.cpuid == id
    }

    /// A lock that nobody holds.
    pub fn new(value: T) -> (r: Self)
        ensures
            r.wf(),
            !r.locked,
            r.value == value,
    {
        SpinLock { locked: false, cpuid: INVALID_CPUID, value }
    }

    /// Takes the lock if nobody holds it. Interrupts are disabled as long as it is
    /// held.
    pub fn try_lock(&mut self, hart: &mut Hart) -> (r: Result<SpinLockGuard, TryLockError>)
        requires
            old(self).wf(),
            old(hart).wf(),
            old(hart).state.push_depth < NCPU,
            old(hart).id != INVALID_CPUID,
            !old(self).held_by(old(hart).id),
        ensures
            final(self).wf(),
            final(hart).wf(),
            final(self).value == old(self).value,
            old(self).locked ==> {
                &&& r == Err::<SpinLockGuard, TryLockError>(TryLockError::Locked)
                &&& *final(self) == *old(self)
                &&& *final(hart) == old(hart).pushed().popped()
                &&& final(hart).sie == old(hart).sie
                &&& final(hart).state.push_depth == old(hart).state.push_depth
            },
            !old(self).locked ==> {
                &&& r matches Ok(guard)
                &&& guard.cpuid == old(hart).id
                &&& final(self).held_by(old(hart).id)
                &&& *final(hart) == old(hart).pushed()
            },
            try_step(*old(self), *old(hart), *final(self), *final(hart), r),
    {
        // disable interrupts to avoid deadlock
        let int_guard: Guard = push_disabled(hart);
        if self.locked {
            int_guard.release(hart);
            return Err(TryLockError::Locked);
        }
        self.locked = true;
        self.cpuid = hart.id;
        // restoring the state would enable interrupts again
        int_guard.forget();
        Ok(SpinLockGuard { cpuid: hart.id })
    }

    /// Takes the lock if nobody holds it; otherwise the CPU goes on waiting, with
    /// interrupts disabled. `waiting` is what it has waited with so far.
    pub fn lock(&mut self, hart: &mut Hart, waiting: Option<Guard>) -> (r: Result<
        SpinLockGuard,
        Guard,
    >)
        requires
            can_lock(*old(self), waiting, *old(hart)),
        ensures
            final(self).wf(),
            final(hart).wf(),
            final(self).value == old(self).value,
            *final(hart) == holding(waiting, *old(hart)),
            match r {
                Ok(guard) => {
                    &&& !old(self).locked
                    &&& guard.cpuid == old(hart).id
                    &&& final(self).held_by(old(hart).id)
                },
                Err(guard) => {
                    &&& old(self).locked
                    &&& guard.cpuid == old(hart).id
                    &&& *final(self) == *old(self)
                },
            },
            lock_step(*old(self), waiting, *old(hart), *final(self), *final(hart), r),
    {
        // disable interrupts to avoid deadlock
        let int_guard: Guard = match waiting {
            Some(guard) => guard,
            None => push_disabled(hart),
        };
        if self.locked {
            return Err(int_guard);
        }
        self.locked = true;
        self.cpuid = hart.id;
        int_guard.forget();
        Ok(SpinLockGuard { cpuid: hart.id })
    }

    /// Stands for the lock that this CPU holds.
    pub fn remember_locked(&self, hart: &Hart) -> (r: SpinLockGuard)
        requires
            self.held_by(hart.id),
            !hart.sie,
        ensures
            r.cpuid == hart.id,
    {
        SpinLockGuard { cpuid: hart.id }
    }

    /// Whether this CPU is holding the lock. Interrupts must be off.
    pub fn holding(&self, hart: &Hart) -> (r: bool)
        requires
            !hart.sie,
        ensures
            r == self.held_by(hart.id),
    {
        self.locked && self.cpuid == hart.id
    }

    /// Gives the lock back.
    pub fn unlock(&mut self, guard: SpinLockGuard, hart: &mut Hart)
        requires
            old(hart).wf(),
            old(hart).state.push_depth > 0,
            guard.cpuid == old(hart).id,
            old(self).held_by(old(hart).id),
        ensures
            final(self).wf(),
            final(hart).wf(),
            !final(self).locked,
            final(self).value == old(self).value,
            *final(hart) == old(hart).popped(),
            unlock_step(*old(self), *old(hart), *final(self), *final(hart)),
    {
        self.cpuid = INVALID_CPUID;
        self.locked = false;
        pop_disabled(hart);
    }
}

/// Stands for a lock that is held.
#[derive(Debug)]
pub struct SpinLockGuard {
    pub cpuid: usize,
}

impl SpinLockGuard {
    /// Returns the lock itself, which is given back.
    pub fn into_lock<'a, T>(self, lock: &'a mut SpinLock<T>, hart: &mut Hart) -> (r:
        &'a mut SpinLock<T>)
        requires
            old(hart).wf(),
            old(hart).state.push_depth > 0,
            self.cpuid == old(hart).id,
            old(lock).held_by(old(hart).id),
        ensures
            r.wf(),
            !r.locked,
            r.value == old(lock).value,
            *final(lock) == *final(r),
            *final(hart) == old(hart).popped(),
            final(hart).wf(),
    {
        lock.unlock(self, hart);
        lock
    }
}

/// Whether a CPU has tried to take a lock.
pub open spec fn try_step<T>(
    before: SpinLock<T>,
    hart: Hart,
    after: SpinLock<T>,
    then: Hart,
    r: Result<SpinLockGuard, TryLockError>,
) -> bool {
    &&& after.value == before.value
    &&& match r {
        Ok(guard) => {
            &&& !before.locked
            &&& guard.cpuid == hart.id
            &&& after.held_by(hart.id)
            &&& then == hart.pushed()
        },
        Err(_) => {
            &&& before.locked
            &&& after == before
            &&& then == hart.pushed().popped()
        },
    }
}

/// Whether a CPU has taken a lock, or goes on waiting for it.
pub open spec fn lock_step<T>(
    before: SpinLock<T>,
    waiting: Option<Guard>,
    hart: Hart,
    after: SpinLock<T>,
    then: Hart,
    r: Result<SpinLockGuard, Guard>,
) -> bool {
    &&& after.value == before.value
    &&& then == holding(waiting, hart)
    &&& match r {
        Ok(guard) => !before.locked && guard.cpuid == hart.id && after.held_by(hart.id),
        Err(guard) => before.locked && guard.cpuid == hart.id && after == before,
    }
}

/// Whether a CPU has given a lock back.
pub open spec fn unlock_step<T>(
    before: SpinLock<T>,
    hart: Hart,
    after: SpinLock<T>,
    then: Hart,
) -> bool {
    &&& !after.locked
    &&& after.value == before.value
    &&& then == hart.popped()
}

/// As long as one CPU holds a lock, no other one gets it, neither by waiting nor by trying,
/// and what the lock guards is not touched. The CPU that holds it takes no interrupt.
pub proof fn law_lock_excludes<T>(
    free: SpinLock<T>,
    waiting: Option<Guard>,
    hart: Hart,
    held: SpinLock<T>,
    then: Hart,
    first: Result<SpinLockGuard, Guard>,
    other_waiting: Option<Guard>,
    other: Hart,
    after: SpinLock<T>,
    other_then: Hart,
    second: Result<SpinLockGuard, Guard>,
    tried: Result<SpinLockGuard, TryLockError>,
)
    requires
        can_lock(free, waiting, hart),
        lock_step(free, waiting, hart, held, then, first),
    ensures
        first is Ok <==> !free.locked,
        !then.sie,
        held.value == free.value,
        first is Ok && lock_step(held, other_waiting, other, after, other_then, second) ==> {
            &&& second is Err
            &&& after == held
        },
        first is Ok && other.wf() && other.state.push_depth < NCPU && try_step(
            held,
            other,
            after,
            other_then,
            tried,
        ) ==> {
            &&& tried is Err
            &&& after == held
            &&& other_then.sie == other.sie
            &&& other_then.state.push_depth == other.state.push_depth
        },
{
}

/// A lock that is given back can be had by anyone, with what its holder has left in it. The
/// CPU takes interrupts again just if it did before it began to wait for the lock.
pub proof fn law_unlock_lets_in<T>(
    free: SpinLock<T>,
    hart: Hart,
    held: SpinLock<T>,
    during: Hart,
    first: Result<SpinLockGuard, Guard>,
    left: SpinLock<T>,
    given: SpinLock<T>,
    then: Hart,
    other_waiting: Option<Guard>,
    other: Hart,
    after: SpinLock<T>,
    other_then: Hart,
    second: Result<SpinLockGuard, Guard>,
)
    requires
        can_lock(free, None, hart),
        lock_step(free, None, hart, held, during, first),
        first is Ok,
        left.locked == held.locked,
        unlock_step(left, during, given, then),
        lock_step(given, other_waiting, other, after, other_then, second),
    ensures
        then.sie == hart.sie,
        then.state.push_depth == hart.state.push_depth,
        then.id == hart.id,
        second is Ok,
        after.value == left.value,
        after.locked,
        after.cpuid == other.id,
{
}

/// Two CPUs never hold a lock at the same time.
pub proof fn law_one_holder<T>(lock: SpinLock<T>, a: usize, b: usize)
    requires
        lock.held_by(a),
        lock.held_by(b),
    ensures
        a == b,
{
}

/// Why waiting has ended without what was waited for.
#[derive(Debug, Clone, Copy, PartialEq, Eq, Structural)]
pub enum WaitError {
    /// The waiting process has been killed.
    WaitingProcessAlreadyKilled,
}

/// Why a process that slept goes on.
#[derive(Debug, Clone, Copy, PartialEq, Eq, Structural)]
pub enum SleepEvent {
    /// It has been woken.
    Woken,
    /// It has been killed.
    Killed,
}

/// What a process does that has slept and goes on.
#[derive(Debug)]
pub enum WaitAction {
    /// It waits for the lock that it gave away, with this.
    Spin(Guard),
    /// It gives the lock away again, and sleeps on.
    Sleep,
    /// What it waited for has happened, and it holds the lock.
    Done(SpinLockGuard),
    /// It gives up, and holds the lock.
    Fail(SpinLockGuard, WaitError),
}

/// Something that processes wait for, while they give a lock away.
#[derive(Debug, PartialEq, Eq)]
pub struct SpinLockCondVar {
    /// How often it has happened.
    pub counter: u64,
}

impl SpinLockCondVar {
    /// It has not happened yet.
    pub fn new() -> (r: Self)
        ensures
            r.counter == 0,
    {
        SpinLockCondVar { counter: 0 }
    }

    /// Begins to wait: the process remembers how often it has happened, gives the lock
    /// away, and sleeps.
    pub fn begin_wait<T>(&self, lock: &mut SpinLock<T>, guard: SpinLockGuard, hart: &mut Hart) -> (r:
        u64)
        requires
            old(hart).wf(),
            old(hart).state.push_depth > 0,
            guard.cpuid == old(hart).id,
            old(lock).held_by(old(hart).id),
        ensures
            r == self.counter,
            final(lock).wf(),
            !final(lock).locked,
            final(lock).value == old(lock).value,
            *final(hart) == old(hart).popped(),
            final(hart).wf(),
    {
        lock.unlock(guard, hart);
        self.counter
    }

    /// What a process does that goes on after it has slept since the count was `since`:
    /// it takes the lock again, and sleeps on unless it has happened or the process has
    /// been killed.
    pub fn wait<T>(
        &self,
        since: u64,
        event: SleepEvent,
        lock: &mut SpinLock<T>,
        hart: &mut Hart,
        waiting: Option<Guard>,
    ) -> (r: WaitAction)
        requires
            can_lock(*old(lock), waiting, *old(hart)),
        ensures
            final(lock).wf(),
            final(hart).wf(),
            final(lock).value == old(lock).value,
            r is Spin <==> old(lock).locked,
            r is Sleep <==> !old(lock).locked && event == SleepEvent::Woken && self.counter
                == since,
            r is Done <==> !old(lock).locked && event == SleepEvent::Woken && self.counter
                != since,
            r is Fail <==> !old(lock).locked && event == SleepEvent::Killed,
            waited(*old(lock), waiting, *old(hart), *final(lock), *final(hart), r),
            wait_step(self.counter, since, event, *old(lock), r),
    {
        match event {
            SleepEvent::Woken => self.force_wait(since, lock, hart, waiting),
            SleepEvent::Killed => match lock.lock(hart, waiting) {
                Ok(guard) => WaitAction::Fail(guard, WaitError::WaitingProcessAlreadyKilled),
                Err(guard) => WaitAction::Spin(guard),
            },
        }
    }

    /// What a process does that goes on after it has slept since the count was `since`,
    /// and that does not give up even if it is killed: it takes the lock again, and
    /// sleeps on unless it has happened.
    pub fn force_wait<T>(
        &self,
        since: u64,
        lock: &mut SpinLock<T>,
        hart: &mut Hart,
        waiting: Option<Guard>,
    ) -> (r: WaitAction)
        requires
            can_lock(*old(lock), waiting, *old(hart)),
        ensures
            final(lock).wf(),
            final(hart).wf(),
            final(lock).value == old(lock).value,
            r is Spin <==> old(lock).locked,
            r is Sleep <==> !old(lock).locked && self.counter == since,
            r is Done <==> !old(lock).locked && self.counter != since,
            waited(*old(lock), waiting, *old(hart), *final(lock), *final(hart), r),
            wait_step(self.counter, since, SleepEvent::Woken, *old(lock), r),
    {
        match lock.lock(hart, waiting) {
            Ok(guard) => {
                if self.counter != since {
                    return WaitAction::Done(guard);
                }
                lock.unlock(guard, hart);
                WaitAction::Sleep
            },
            Err(guard) => WaitAction::Spin(guard),
        }
    }

    /// Lets it happen: all that wait are to be woken.
    pub fn notify(&mut self)
        ensures
            final(self).counter == (if old(self).counter == u64::MAX {
                0
            } else {
                (old(self).counter + 1) as u64
            }),
            final(self).counter == notified(old(self).counter, 1),
    {
        self.counter = self.counter.wrapping_add(1);
    }
}

/// What has become of the lock and of the CPU when a process goes on after it has
/// slept: it holds the lock if it is done or gives up.
pub open spec fn waited<T>(
    old_lock: SpinLock<T>,
    waiting: Option<Guard>,
    old_hart: Hart,
    lock: SpinLock<T>,
    hart: Hart,
    r: WaitAction,
) -> bool {
    match r {
        WaitAction::Spin(guard) => {
            &&& lock == old_lock
            &&& guard.cpuid == hart.id
            &&& hart == holding(waiting, old_hart)
        },
        WaitAction::Sleep => !lock.locked && hart == holding(waiting, old_hart).popped(),
        WaitAction::Done(guard) => {
            &&& lock.held_by(hart.id)
            &&& guard.cpuid == hart.id
            &&& hart == holding(waiting, old_hart)
        },
        WaitAction::Fail(guard, e) => {
            &&& lock.held_by(hart.id)
            &&& guard.cpuid == hart.id
            &&& hart == holding(waiting, old_hart)
            &&& e == WaitError::WaitingProcessAlreadyKilled
        },
    }
}

/// What a process does that goes on after it has slept since the count was `since`.
pub open spec fn wait_step<T>(
    counter: u64,
    since: u64,
    event: SleepEvent,
    lock: SpinLock<T>,
    r: WaitAction,
) -> bool {
    match r {
        WaitAction::Spin(_) => lock.locked,
        WaitAction::Sleep => !lock.locked && event == SleepEvent::Woken && counter == since,
        WaitAction::Done(_) => !lock.locked && event == SleepEvent::Woken && counter != since,
        WaitAction::Fail(_, _) => !lock.locked && event == SleepEvent::Killed,
    }
}

/// A process that waits for something goes on, and holds its lock again, as soon as that
/// has happened and the lock is free: not before, and however often it has happened, short
/// of a full turn of the count. If it has been killed it gives up instead, and holds the
/// lock too. If it sleeps on, it has given the lock away.
pub proof fn law_wait_ends<T>(
    since: u64,
    n: nat,
    event: SleepEvent,
    old_lock: SpinLock<T>,
    waiting: Option<Guard>,
    old_hart: Hart,
    lock: SpinLock<T>,
    hart: Hart,
    r: WaitAction,
)
    requires
        n < 0x1_0000_0000_0000_0000,
        can_lock(old_lock, waiting, old_hart),
        wait_step(notified(since, n), since, event, old_lock, r),
        waited(old_lock, waiting, old_hart, lock, hart, r),
    ensures
        old_lock.locked <==> r is Spin,
        !old_lock.locked && event is Woken && n > 0 ==> r is Done,
        !old_lock.locked && event is Woken && n == 0 ==> r is Sleep,
        !old_lock.locked && event is Killed ==> r is Fail,
        r is Done || r is Fail ==> lock.locked && lock.cpuid == old_hart.id && !hart.sie,
        r is Sleep ==> !lock.locked,
{
    if n > 0 {
        law_wakeup_not_lost(SpinLockCondVar { counter: notified(since, n) }, since, n);
    }
}

/// The count after it has happened `n` more times.
pub open spec fn notified(counter: u64, n: nat) -> u64 {
    ((counter + n) % 0x1_0000_0000_0000_0000) as u64
}

/// A process that waits while it happens, however often short of a full turn of
/// the count, finds that it has.
pub proof fn law_wakeup_not_lost(condvar: SpinLockCondVar, since: u64, n: nat)
    requires
        0 < n < 0x1_0000_0000_0000_0000,
        condvar.counter == notified(since, n),
    ensures
        condvar.counter != since,
{
    if since + n < 0x1_0000_0000_0000_0000 {
        assert((since + n) % 0x1_0000_0000_0000_0000 == since + n);
    } else {
        assert((since + n) % 0x1_0000_0000_0000_0000 == since + n - 0x1_0000_0000_0000_0000);
    }
}

} // verus!
