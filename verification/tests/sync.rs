use ov6::interrupt::{disabled_depth, CpuState, Hart};
use ov6::sync::sleep_lock::{Holder, LockAction, LockStage, SleepLock, SleepLockError};
use ov6::sync::spin_lock::{
    SleepEvent, SpinLock, SpinLockCondVar, TryLockError, WaitAction, WaitError,
};
use ov6::types::ProcId;

fn hart(id: usize) -> Hart {
    Hart {
        id,
        sie: true,
        state: CpuState::new(),
    }
}

#[test]
fn a_spin_lock_has_one_holder() {
    let (mut a, mut b) = (hart(0), hart(1));
    let mut lock = SpinLock::new(5);
    let guard = lock.try_lock(&mut a).unwrap();
    assert!(lock.holding(&a));
    assert!(!a.sie);
    assert_eq!(lock.try_lock(&mut b).unwrap_err(), TryLockError::Locked);
    assert!(b.sie);
    let waiting = lock.lock(&mut b, None).unwrap_err();
    assert!(!b.sie);
    assert!(!lock.holding(&b));
    lock.unlock(guard, &mut a);
    assert!(a.sie);
    let guard = lock.lock(&mut b, Some(waiting)).unwrap();
    assert!(lock.holding(&b));
    lock.unlock(guard, &mut b);
    assert!(b.sie);
    let _guard = lock.lock(&mut b, None).unwrap();
    let again = lock.remember_locked(&b);
    lock.unlock(again, &mut b);
    assert!(!lock.locked);
}

#[test]
fn a_guard_that_becomes_the_lock_gives_it_back() {
    let mut h = hart(0);
    let mut lock = SpinLock::new(5);
    let depth = disabled_depth(&h);
    let guard = lock.lock(&mut h, None).unwrap();
    let free = guard.into_lock(&mut lock, &mut h);
    assert_eq!(free.value, 5);
    assert!(free.try_lock(&mut hart(1)).is_ok());
    assert_eq!(disabled_depth(&h), depth);
    assert!(h.sie);
}

#[test]
fn a_wakeup_is_not_lost() {
    let mut h = hart(0);
    let mut lock = SpinLock::new(5);
    let mut condvar = SpinLockCondVar::new();
    let guard = lock.lock(&mut h, None).unwrap();
    let since = condvar.begin_wait(&mut lock, guard, &mut h);
    assert!(!lock.locked && h.sie);
    // woken by something else, it sleeps on, without the lock
    assert!(matches!(
        condvar.wait(since, SleepEvent::Woken, &mut lock, &mut h, None),
        WaitAction::Sleep
    ));
    assert!(!lock.locked && h.sie);
    condvar.notify();
    // it waits for the lock before it goes on
    let mut other = hart(1);
    let held = lock.lock(&mut other, None).unwrap();
    let WaitAction::Spin(waiting) =
        condvar.wait(since, SleepEvent::Woken, &mut lock, &mut h, None)
    else {
        panic!("the lock is held");
    };
    lock.unlock(held, &mut other);
    let WaitAction::Done(guard) =
        condvar.wait(since, SleepEvent::Woken, &mut lock, &mut h, Some(waiting))
    else {
        panic!("it has happened");
    };
    assert!(lock.holding(&h));
    lock.unlock(guard, &mut h);
}

#[test]
fn a_killed_process_gives_up_with_the_lock_held() {
    let mut h = hart(0);
    let mut lock = SpinLock::new(5);
    let condvar = SpinLockCondVar::new();
    let guard = lock.lock(&mut h, None).unwrap();
    let since = condvar.begin_wait(&mut lock, guard, &mut h);
    assert!(matches!(
        condvar.wait(since, SleepEvent::Killed, &mut lock, &mut h, None),
        WaitAction::Fail(_, WaitError::WaitingProcessAlreadyKilled)
    ));
    assert!(lock.holding(&h));
}

#[test]
fn some_waiting_does_not_end_with_a_kill() {
    let mut h = hart(0);
    let mut lock = SpinLock::new(5);
    let mut condvar = SpinLockCondVar::new();
    let guard = lock.lock(&mut h, None).unwrap();
    let since = condvar.begin_wait(&mut lock, guard, &mut h);
    assert!(matches!(
        condvar.force_wait(since, &mut lock, &mut h, None),
        WaitAction::Sleep
    ));
    condvar.notify();
    assert!(matches!(
        condvar.force_wait(since, &mut lock, &mut h, None),
        WaitAction::Done(_)
    ));
    assert!(lock.holding(&h));
}

fn look() -> LockStage {
    LockStage::Look(None)
}

fn awake(since: u64, event: SleepEvent) -> LockStage {
    LockStage::Awake {
        since,
        event,
        waiting: None,
    }
}

#[test]
fn a_sleep_lock_puts_others_to_sleep() {
    let mut h = hart(0);
    let mut lock = SleepLock::new(5);
    let me = Some(ProcId::new(1));
    let other = Some(ProcId::new(2));
    let LockAction::Acquired(guard) = lock.wait_lock(me, &mut h, look()) else {
        panic!("nobody holds it");
    };
    assert_eq!(lock.locked.value, Holder { locked: true, owner: me });
    assert_eq!(lock.try_lock(other, &mut h).unwrap_err(), TryLockError::Locked);
    let LockAction::Sleep(since) = lock.wait_lock(other, &mut h, look()) else {
        panic!("it is held");
    };
    assert!(h.sie);
    // woken too early
    assert!(matches!(
        lock.wait_lock(other, &mut h, awake(since, SleepEvent::Woken)),
        LockAction::Sleep(n) if n == since
    ));
    assert!(matches!(
        lock.wait_lock(other, &mut h, awake(since, SleepEvent::Killed)),
        LockAction::Fail(SleepLockError::LockingProcessAlreadyKilled)
    ));
    assert!(matches!(
        lock.force_wait_lock(other, &mut h, awake(since, SleepEvent::Killed)),
        LockAction::Sleep(_)
    ));
    lock.unlock(guard, &mut h, None).unwrap();
    assert_eq!(lock.unlocked.counter, since + 1);
    let LockAction::Acquired(guard) =
        lock.wait_lock(other, &mut h, awake(since, SleepEvent::Woken))
    else {
        panic!("it has been given back");
    };
    assert_eq!(guard.owner, other);
    lock.unlock(guard, &mut h, None).unwrap();
    assert!(lock.try_lock(me, &mut h).is_ok());
    assert_eq!(lock.value, 5);
}

#[test]
fn looking_at_a_sleep_lock_takes_turns() {
    let (mut a, mut b) = (hart(0), hart(1));
    let mut lock = SleepLock::new(());
    let held = lock.locked.lock(&mut a, None).unwrap();
    assert!(lock.try_lock(None, &mut b).is_err());
    let LockAction::Spin(stage) = lock.force_wait_lock(None, &mut b, look()) else {
        panic!("somebody looks");
    };
    lock.locked.unlock(held, &mut a);
    assert!(matches!(
        lock.force_wait_lock(None, &mut b, stage),
        LockAction::Acquired(_)
    ));
    assert!(b.sie);
}
