use lock_free::mutex::{
    lock_action, lock_advance, must_wake, LockAction, LockPhase, Mutex, LOCKED,
    LOCKED_WITH_WAITERS, UNLOCKED,
};
use lock_free::spin_lock::{acquired, SpinLock};
use lock_free::word::{apply_word_op, MemOrder, WordOp};

#[test]
fn mutex_lock_then_relock_sees_new_value() {
    let value_1 = String::from("one");
    let value_2 = String::from("two");
    let mut mutex = Mutex::new(value_1.clone());
    let mut guard = mutex.lock();
    assert_eq!(guard.get(), &value_1);
    guard.set(value_2.clone());
    assert!(!mutex.unlock(guard));
    let guard = mutex.lock();
    assert_eq!(guard.get(), &value_2);
}

/// A second thread finds the mutex held, announces itself, sleeps, and
/// takes the lock after the holder's unlock asks for a wake-up.
#[test]
fn mutex_contended_lock_waits_for_wake() {
    let mut mutex = Mutex::new(0usize);
    let mut guard = mutex.lock();
    assert_eq!(mutex.state_word(), LOCKED);

    let p = match mutex.lock_step(LockPhase::Start) {
        Err(p) => p,
        Ok(_) => panic!("the lock is held"),
    };
    assert_eq!(p, LockPhase::Contend);
    let p = match mutex.lock_step(p) {
        Err(p) => p,
        Ok(_) => panic!("the lock is held"),
    };
    assert_eq!(p, LockPhase::Sleep);
    assert_eq!(mutex.state_word(), LOCKED_WITH_WAITERS);

    guard.set(1);
    assert!(mutex.unlock(guard));
    assert_eq!(mutex.state_word(), UNLOCKED);

    let p = match mutex.lock_step(p) {
        Err(p) => p,
        Ok(_) => panic!("waking only leads back to contending"),
    };
    assert_eq!(p, LockPhase::Contend);
    let guard = mutex.lock_step(p).ok().unwrap();
    assert_eq!(*guard.get(), 1);
    // The winner keeps the waiters mark: its unlock wakes again.
    assert_eq!(mutex.state_word(), LOCKED_WITH_WAITERS);
    assert!(mutex.unlock(guard));
}

#[test]
fn mutex_decisions() {
    assert_eq!(
        lock_action(LockPhase::Start),
        LockAction::Atomic(WordOp::CompareExchange(0, 1, MemOrder::Acquire, MemOrder::Relaxed))
    );
    assert_eq!(
        lock_action(LockPhase::Contend),
        LockAction::Atomic(WordOp::Swap(2, MemOrder::Acquire))
    );
    assert_eq!(lock_action(LockPhase::Sleep), LockAction::Wait(2));
    assert_eq!(lock_advance(LockPhase::Start, 0), LockPhase::Held);
    assert_eq!(lock_advance(LockPhase::Start, 1), LockPhase::Contend);
    assert_eq!(lock_advance(LockPhase::Contend, 0), LockPhase::Held);
    assert_eq!(lock_advance(LockPhase::Contend, 2), LockPhase::Sleep);
    assert_eq!(lock_advance(LockPhase::Sleep, 7), LockPhase::Contend);
    assert!(must_wake(2));
    assert!(!must_wake(1));
}

#[test]
fn spin_lock_data() {
    let data = String::from("spin");
    let mut l = SpinLock::new(data.clone());
    let g = l.lock();
    assert_eq!(g.get(), &data);
    l.unlock(g);
    let g = l.lock();
    assert_eq!(g.get(), &data);
}

#[test]
fn spin_lock_contention() {
    let mut l = SpinLock::new(41usize);
    assert!(!l.is_locked());
    let mut guard = l.lock();
    assert!(l.is_locked());
    // Another thread's attempts fail while the lock is held.
    assert!(l.lock_step().is_none());
    assert!(l.lock_step().is_none());
    guard.set(*guard.get() + 1);
    l.unlock(guard);
    assert!(!l.is_locked());
    let guard = l.lock_step().unwrap();
    assert!(l.is_locked());
    assert_eq!(*guard.get(), 42);
    l.unlock(guard);
    assert!(!l.is_locked());
    assert!(acquired(false));
    assert!(!acquired(true));
}

/// Two threads take turns incrementing under the lock, one of them after
/// waiting for the other: no increment is lost.
#[test]
fn mutex_increments_are_not_lost() {
    let mut mutex = Mutex::new(10usize);
    let mut g = mutex.lock();
    // The second thread finds the lock held and goes to sleep.
    let p = mutex.lock_step(LockPhase::Start).err().unwrap();
    let p = mutex.lock_step(p).err().unwrap();
    assert_eq!(p, LockPhase::Sleep);
    let v = *g.get();
    g.set(v + 1);
    assert!(mutex.unlock(g));
    // Woken, it takes the lock within two of its own actions.
    let p = mutex.lock_step(p).err().unwrap();
    let mut g = mutex.lock_step(p).ok().unwrap();
    let v = *g.get();
    g.set(v + 1);
    assert!(mutex.unlock(g));
    let g = mutex.lock();
    assert_eq!(*g.get(), 12);
}

#[test]
fn spin_lock_increments_are_not_lost() {
    let mut lock = SpinLock::new(0u32);
    for _ in 0..5 {
        let mut g = lock.lock();
        let v = *g.get();
        g.set(v + 1);
        lock.unlock(g);
    }
    let g = lock.lock();
    assert_eq!(*g.get(), 5);
}

#[test]
fn word_store_returns_the_value_stored() {
    let mut w = 5u32;
    assert_eq!(apply_word_op(&mut w, WordOp::Store(7, MemOrder::Release)), 7);
    assert_eq!(w, 7);
    assert_eq!(apply_word_op(&mut w, WordOp::Swap(9, MemOrder::Acquire)), 7);
    assert_eq!(w, 9);
}
