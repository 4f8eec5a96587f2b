use lock_free::cond_var::{Condvar, NotifyPhase, WaitPhase};
use lock_free::mutex::{LockPhase, Mutex, UNLOCKED};

#[test]
fn condvar_notify_without_waiters_does_nothing() {
    let mut c = Condvar::new();
    assert!(!c.notify_one());
    assert!(!c.notify_all());
    assert_eq!(c.counter_word(), 0);
    let d = Condvar::default();
    assert_eq!(d.waiter_count(), 0);
}

/// A waiter registers, reads the counter, unlocks the mutex and sleeps;
/// the notifier changes the value under the mutex and notifies, which bumps
/// the counter the waiter sleeps on; the waiter then relocks and sees the
/// new value.
#[test]
fn condvar_wait_and_notify() {
    let mut mutex = Mutex::new(10usize);
    let mut c = Condvar::new();
    let guard = mutex.lock();

    let p = c.wait(WaitPhase::Register);
    assert_eq!(p, WaitPhase::ReadCounter);
    assert_eq!(c.waiter_count(), 1);
    let p = c.wait(p);
    assert_eq!(p, WaitPhase::Release(0));
    let (p, wake) = c.release_step(p, &mut mutex, guard);
    assert!(!wake);
    assert_eq!(p, WaitPhase::Sleep(0));
    assert_eq!(mutex.state_word(), UNLOCKED);

    let mut g = mutex.lock();
    g.set(*g.get() + 1);
    mutex.unlock(g);
    let n = c.notify_step(NotifyPhase::Check);
    assert_eq!(n, NotifyPhase::Bump);
    let n = c.notify_step(n);
    assert_eq!(n, NotifyPhase::Wake);
    assert_eq!(c.counter_word(), 1);
    assert_eq!(c.notify_step(n), NotifyPhase::Done);

    let p = c.wait(p);
    assert_eq!(p, WaitPhase::Unregister);
    let p = c.wait(p);
    assert_eq!(p, WaitPhase::Relock);
    assert_eq!(c.waiter_count(), 0);
    let g = mutex.lock_step(LockPhase::Start).ok().unwrap();
    assert_eq!(*g.get(), 11);
}

#[test]
fn condvar_notify_all_with_waiters() {
    let mut c = Condvar::new();
    c.wait(WaitPhase::Register);
    c.wait(WaitPhase::Register);
    assert!(c.notify_all());
    assert_eq!(c.counter_word(), 1);
    assert!(c.notify_one());
    assert_eq!(c.counter_word(), 2);
}
