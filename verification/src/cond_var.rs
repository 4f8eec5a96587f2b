//! A condition variable over a notification counter and a count of waiters.
use crate::mutex::{Mutex, MutexGuard, UNLOCKED, LOCKED_WITH_WAITERS};
use crate::word::{
    apply_count_op, apply_word_op, count_op_effect, word_op_effect, CountOp, MemOrder, WordOp,
};
use vstd::prelude::*;

verus! {

/// Where a thread stands inside `Condvar::wait`.
#[derive(Clone, Copy, Debug, PartialEq, Eq, Structural)]
pub enum WaitPhase {
    /// About to count itself among the waiters.
    Register,
    /// About to load the notification counter.
    ReadCounter,
    /// Read the counter `c`; about to unlock the mutex.
    Release(u32),
    /// About to sleep while the counter is `c`.
    Sleep(u32),
    /// Woke up; about to take itself off the waiters.
    Unregister,
    /// About to lock the mutex again (through `Mutex::lock_step`).
    Relock,
}

/// What a waiting thread does next.
#[derive(Clone, Copy, Debug, PartialEq, Eq, Structural)]
pub enum WaitAction {
    /// Issue this instruction on the count of waiters.
    Waiters(CountOp),
    /// Issue this instruction on the notification counter.
    Counter(WordOp),
    /// Unlock the mutex through the guard.
    UnlockMutex,
    /// Sleep until woken or until the counter no longer holds this value.
    WaitCounter(u32),
    /// Lock the mutex.
    LockMutex,
}

/// Where a thread stands inside `Condvar::notify_one` or `notify_all`.
#[derive(Clone, Copy, Debug, PartialEq, Eq, Structural)]
pub enum NotifyPhase {
    /// About to load the count of waiters.
    Check,
    /// Saw waiters; about to bump the counter.
    Bump,
    /// About to wake one waiter, or all of them.
    Wake,
    Done,
}

/// What a notifying thread does next.
#[derive(Clone, Copy, Debug, PartialEq, Eq, Structural)]
pub enum NotifyAction {
    /// Issue this instruction on the count of waiters.
    Waiters(CountOp),
    /// Issue this instruction on the notification counter.
    Counter(WordOp),
    /// Wake threads sleeping on the counter.
    WakeCounter,
    Finished,
}

pub open spec fn spec_wait_action(phase: WaitPhase) -> WaitAction {
    match phase {
        WaitPhase::Register => WaitAction::Waiters(CountOp::FetchAdd(1, MemOrder::Relaxed)),
        WaitPhase::ReadCounter => WaitAction::Counter(WordOp::Load(MemOrder::Relaxed)),
        WaitPhase::Release(_) => WaitAction::UnlockMutex,
        WaitPhase::Sleep(c) => WaitAction::WaitCounter(c),
        WaitPhase::Unregister => WaitAction::Waiters(CountOp::FetchSub(1, MemOrder::Relaxed)),
        WaitPhase::Relock => WaitAction::LockMutex,
    }
}

/// The phase that follows `phase`; `counter` is what loading the counter
/// returned, and only the load reads it.
pub open spec fn spec_wait_advance(phase: WaitPhase, counter: u32) -> WaitPhase {
    match phase {
        WaitPhase::Register => WaitPhase::ReadCounter,
        WaitPhase::ReadCounter => WaitPhase::Release(counter),
        WaitPhase::Release(c) => WaitPhase::Sleep(c),
        WaitPhase::Sleep(_) => WaitPhase::Unregister,
        WaitPhase::Unregister => WaitPhase::Relock,
        WaitPhase::Relock => WaitPhase::Relock,
    }
}

pub open spec fn spec_notify_action(phase: NotifyPhase) -> NotifyAction {
    match phase {
        NotifyPhase::Check => NotifyAction::Waiters(CountOp::Load(MemOrder::Relaxed)),
        NotifyPhase::Bump => NotifyAction::Counter(WordOp::FetchAdd(1, MemOrder::Relaxed)),
        NotifyPhase::Wake => NotifyAction::WakeCounter,
        NotifyPhase::Done => NotifyAction::Finished,
    }
}

/// The phase that follows `phase`; `waiters` is what loading the count of
/// waiters returned, and only the load reads it.
pub open spec fn spec_notify_advance(phase: NotifyPhase, waiters: usize) -> NotifyPhase {
    match phase {
        NotifyPhase::Check => if waiters > 0 {
            NotifyPhase::Bump
        } else {
            NotifyPhase::Done
        },
        NotifyPhase::Bump => NotifyPhase::Wake,
        NotifyPhase::Wake => NotifyPhase::Done,
        NotifyPhase::Done => NotifyPhase::Done,
    }
}

/// The action a waiting thread at `phase` takes next.
pub fn wait_action(phase: WaitPhase) -> (r: WaitAction)
    ensures
        r == spec_wait_action(phase),
{
    match phase {
        WaitPhase::Register => WaitAction::Waiters(CountOp::FetchAdd(1, MemOrder::Relaxed)),
        WaitPhase::ReadCounter => WaitAction::Counter(WordOp::Load(MemOrder::Relaxed)),
        WaitPhase::Release(_) => WaitAction::UnlockMutex,
        WaitPhase::Sleep(c) => WaitAction::WaitCounter(c),
        WaitPhase::Unregister => WaitAction::Waiters(CountOp::FetchSub(1, MemOrder::Relaxed)),
        WaitPhase::Relock => WaitAction::LockMutex,
    }
}

/// The phase that follows `phase` of a waiting thread.
pub fn wait_advance(phase: WaitPhase, counter: u32) -> (r: WaitPhase)
    ensures
        r == spec_wait_advance(phase, counter),
{
    match phase {
        WaitPhase::Register => WaitPhase::ReadCounter,
        WaitPhase::ReadCounter => WaitPhase::Release(counter),
        WaitPhase::Release(c) => WaitPhase::Sleep(c),
        WaitPhase::Sleep(_) => WaitPhase::Unregister,
        WaitPhase::Unregister => WaitPhase::Relock,
        WaitPhase::Relock => WaitPhase::Relock,
    }
}

/// The action a notifying thread at `phase` takes next.
pub fn notify_action(phase: NotifyPhase) -> (r: NotifyAction)
    ensures
        r == spec_notify_action(phase),
{
    match phase {
        NotifyPhase::Check => NotifyAction::Waiters(CountOp::Load(MemOrder::Relaxed)),
        NotifyPhase::Bump => NotifyAction::Counter(WordOp::FetchAdd(1, MemOrder::Relaxed)),
        NotifyPhase::Wake => NotifyAction::WakeCounter,
        NotifyPhase::Done => NotifyAction::Finished,
    }
}

/// The phase that follows `phase` of a notifying thread.
pub fn notify_advance(phase: NotifyPhase, waiters: usize) -> (r: NotifyPhase)
    ensures
        r == spec_notify_advance(phase, waiters),
{
    match phase {
        NotifyPhase::Check => if waiters > 0 {
            NotifyPhase::Bump
        } else {
            NotifyPhase::Done
        },
        NotifyPhase::Bump => NotifyPhase::Wake,
        NotifyPhase::Wake => NotifyPhase::Done,
        NotifyPhase::Done => NotifyPhase::Done,
    }
}

/// The words of a condition variable: its notification counter and its
/// count of waiters.
pub struct Condvar {
    counter: u32,
    num_waiters: usize,
}

/// The counter and the count of waiters after a waiting thread at `phase`
/// acts on them, and its next phase. Unlocking the mutex and sleeping leave
/// them alone (a sleep advances on the value it slept on, as the driver of
/// `wait` does); locking the mutex again is done through the mutex, and the
/// thread stays at `Relock` here.
pub open spec fn wait_transition(counter: u32, waiters: usize, phase: WaitPhase) -> (
    u32,
    usize,
    WaitPhase,
) {
    match spec_wait_action(phase) {
        WaitAction::Waiters(op) => (
            counter,
            count_op_effect(waiters, op).0,
            spec_wait_advance(phase, counter),
        ),
        WaitAction::Counter(op) => {
            let (c, observed) = word_op_effect(counter, op);
            (c, waiters, spec_wait_advance(phase, observed))
        },
        WaitAction::UnlockMutex => (counter, waiters, spec_wait_advance(phase, counter)),
        WaitAction::WaitCounter(c) => (counter, waiters, spec_wait_advance(phase, c)),
        WaitAction::LockMutex => (counter, waiters, phase),
    }
}

/// The counter after a notifying thread at `phase` acts, and its next phase.
/// Notifying never changes the count of waiters; waking the sleepers leads
/// to `Done`, where the notifier stays.
pub open spec fn notify_transition(counter: u32, waiters: usize, phase: NotifyPhase) -> (
    u32,
    NotifyPhase,
) {
    match spec_notify_action(phase) {
        NotifyAction::Waiters(op) => (
            counter,
            spec_notify_advance(phase, count_op_effect(waiters, op).1),
        ),
        NotifyAction::Counter(op) => (word_op_effect(counter, op).0, spec_notify_advance(phase, waiters)),
        NotifyAction::WakeCounter => (counter, spec_notify_advance(phase, waiters)),
        NotifyAction::Finished => (counter, phase),
    }
}

impl Condvar {
    /// The notification counter.
    pub closed spec fn counter(&self) -> u32 {
        self.counter
    }

    /// The count of waiters.
    pub closed spec fn num_waiters(&self) -> usize {
        self.num_waiters
    }

    /// The notification counter.
    pub fn counter_word(&self) -> (r: u32)
        ensures
            r == self.counter(),
    {
        self.counter
    }

    /// The count of waiters.
    pub fn waiter_count(&self) -> (r: usize)
        ensures
            r == self.num_waiters(),
    {
        self.num_waiters
    }

    /// A condition variable with no waiters and the counter at zero.
    pub fn new() -> (c: Self)
        ensures
            c.counter() == 0,
            c.num_waiters() == 0,
    {
        Condvar { counter: 0, num_waiters: 0 }
    }

    /// Takes the next action of a waiting thread at `phase` on the
    /// condition variable's words. (At `Release` the thread unlocks the
    /// mutex, with `release_step`; at `Relock` it locks it. The whole wait is
    /// these actions in turn, from `Register`.)
    pub fn wait(&mut self, phase: WaitPhase) -> (r: WaitPhase)
        requires
            !(phase is Release),
            phase != WaitPhase::Relock,
        ensures
            (final(self).counter(), final(self).num_waiters(), r) == wait_transition(
                old(self).counter(),
                old(self).num_waiters(),
                phase,
            ),
    {
        match wait_action(phase) {
            WaitAction::Waiters(op) => {
                apply_count_op(&mut self.num_waiters, op);
                wait_advance(phase, self.counter)
            },
            WaitAction::Counter(op) => {
                let observed = apply_word_op(&mut self.counter, op);
                wait_advance(phase, observed)
            },
            WaitAction::UnlockMutex => wait_advance(phase, self.counter),
            WaitAction::WaitCounter(c) => wait_advance(phase, c),
            WaitAction::LockMutex => phase,
        }
    }

    /// Unlocks `mutex` for a waiting thread at `Release(c)`, through the
    /// thread's guard; returns the thread's next phase, `Sleep(c)`, and
    /// whether the unlock must wake a thread waiting for the mutex.
    pub fn release_step<T>(
        &self,
        phase: WaitPhase,
        mutex: &mut Mutex<T>,
        guard: MutexGuard<T>,
    ) -> (r: (WaitPhase, bool))
        requires
            phase is Release,
            old(mutex).wf(),
            old(mutex).state() != UNLOCKED,
            guard.lock_id() == old(mutex).id(),
        ensures
            r.0 == spec_wait_advance(phase, self.counter()),
            final(mutex).wf(),
            final(mutex).id() == old(mutex).id(),
            final(mutex).state() == UNLOCKED,
            final(mutex).value() == Some(guard.value()),
            r.1 == (old(mutex).state() == LOCKED_WITH_WAITERS),
    {
        let wake = mutex.unlock(guard);
        (wait_advance(phase, self.counter), wake)
    }

    /// Takes the next action of a notifying thread at `phase`.
    pub fn notify_step(&mut self, phase: NotifyPhase) -> (r: NotifyPhase)
        ensures
            final(self).num_waiters() == old(self).num_waiters(),
            (final(self).counter(), r) == notify_transition(
                old(self).counter(),
                old(self).num_waiters(),
                phase,
            ),
    {
        match notify_action(phase) {
            NotifyAction::Waiters(op) => {
                let observed = apply_count_op(&mut self.num_waiters, op);
                notify_advance(phase, observed)
            },
            NotifyAction::Counter(op) => {
                apply_word_op(&mut self.counter, op);
                notify_advance(phase, self.num_waiters)
            },
            NotifyAction::WakeCounter => notify_advance(phase, self.num_waiters),
            NotifyAction::Finished => phase,
        }
    }

    /// Notifies: when some thread waits, bumps the counter and returns
    /// `true`, and the caller wakes one waiter; otherwise does nothing.
    pub fn notify_one(&mut self) -> (wake: bool)
        ensures
            wake == (old(self).num_waiters() > 0),
            final(self).num_waiters() == old(self).num_waiters(),
            final(self).counter() == if wake {
                word_op_effect(old(self).counter(), WordOp::FetchAdd(1, MemOrder::Relaxed)).0
            } else {
                old(self).counter()
            },
    {
        let next = self.notify_step(NotifyPhase::Check);
        if next == NotifyPhase::Bump {
            self.notify_step(NotifyPhase::Bump);
            true
        } else {
            false
        }
    }

    /// Notifies: when some thread waits, bumps the counter and returns
    /// `true`, and the caller wakes every waiter; otherwise does nothing.
    pub fn notify_all(&mut self) -> (wake: bool)
        ensures
            wake == (old(self).num_waiters() > 0),
            final(self).num_waiters() == old(self).num_waiters(),
            final(self).counter() == if wake {
                word_op_effect(old(self).counter(), WordOp::FetchAdd(1, MemOrder::Relaxed)).0
            } else {
                old(self).counter()
            },
    {
        let next = self.notify_step(NotifyPhase::Check);
        if next == NotifyPhase::Bump {
            self.notify_step(NotifyPhase::Bump);
            true
        } else {
            false
        }
    }
}

impl Default for Condvar {
    fn default() -> (c: Self)
        ensures
            c.counter() == 0,
            c.num_waiters() == 0,
    {
        Condvar::new()
    }
}

/// Where a thread stands with respect to one condition variable.
#[derive(Clone, Copy, Debug, PartialEq, Eq, Structural)]
pub enum CondThread {
    Outside,
    Waiting(WaitPhase),
    Notifying(NotifyPhase),
}

/// Whether the thread counts itself among the waiters.
pub open spec fn is_registered(t: CondThread) -> bool {
    match t {
        CondThread::Waiting(p) => p == WaitPhase::ReadCounter || p is Release || p is Sleep || p
            == WaitPhase::Unregister,
        _ => false,
    }
}

/// The number of threads that count themselves among the waiters.
pub open spec fn registered_count(threads: Seq<CondThread>) -> nat
    decreases threads.len(),
{
    if threads.len() == 0 {
        0
    } else {
        registered_count(threads.drop_last()) + if is_registered(threads.last()) {
            1nat
        } else {
            0nat
        }
    }
}

/// The count of waiters is the number of threads registered as waiters.
pub open spec fn waiters_counted(waiters: usize, threads: Seq<CondThread>) -> bool {
    &&& threads.len() < usize::MAX
    &&& waiters == registered_count(threads)
}

proof fn lemma_registered_count_bound(threads: Seq<CondThread>)
    ensures
        registered_count(threads) <= threads.len(),
    decreases threads.len(),
{
    if threads.len() > 0 {
        lemma_registered_count_bound(threads.drop_last());
    }
}

proof fn lemma_registered_count_update(threads: Seq<CondThread>, i: int, x: CondThread)
    requires
        0 <= i < threads.len(),
    ensures
        registered_count(threads.update(i, x)) + (if is_registered(threads[i]) {
            1nat
        } else {
            0nat
        }) == registered_count(threads) + (if is_registered(x) {
            1nat
        } else {
            0nat
        }),
    decreases threads.len(),
{
    let t2 = threads.update(i, x);
    if i == threads.len() - 1 {
        assert(t2.drop_last() =~= threads.drop_last());
    } else {
        assert(t2.drop_last() =~= threads.drop_last().update(i, x));
        lemma_registered_count_update(threads.drop_last(), i, x);
    }
}

proof fn lemma_registered_count_positive(threads: Seq<CondThread>, j: int)
    requires
        0 <= j < threads.len(),
        is_registered(threads[j]),
    ensures
        registered_count(threads) > 0,
    decreases threads.len(),
{
    if j < threads.len() - 1 {
        assert(threads.drop_last()[j] == threads[j]);
        lemma_registered_count_positive(threads.drop_last(), j);
    }
}

/// Law: every action of a waiting thread on the condition variable keeps
/// the count of waiters equal to the number of registered threads; the
/// count never wraps around.
pub proof fn lemma_wait_step_keeps_count(
    counter: u32,
    waiters: usize,
    threads: Seq<CondThread>,
    i: int,
    phase: WaitPhase,
)
    requires
        waiters_counted(waiters, threads),
        0 <= i < threads.len(),
        threads[i] == CondThread::Waiting(phase),
    ensures
        ({
            let (_, w2, p2) = wait_transition(counter, waiters, phase);
            waiters_counted(w2, threads.update(i, CondThread::Waiting(p2)))
        }),
{
    let (_, w2, p2) = wait_transition(counter, waiters, phase);
    lemma_registered_count_update(threads, i, CondThread::Waiting(p2));
    lemma_registered_count_bound(threads);
    if phase == WaitPhase::Unregister {
        lemma_registered_count_positive(threads, i);
    }
}

/// Law: a thread that starts to wait or to notify, or that has finished,
/// keeps the count of waiters right.
pub proof fn lemma_enter_or_leave_keeps_count(
    waiters: usize,
    threads: Seq<CondThread>,
    i: int,
    t: CondThread,
)
    requires
        waiters_counted(waiters, threads),
        0 <= i < threads.len(),
        !is_registered(threads[i]),
        !is_registered(t),
    ensures
        waiters_counted(waiters, threads.update(i, t)),
{
    lemma_registered_count_update(threads, i, t);
}

/// Law: notifying never changes the count of waiters, so it stays right.
pub proof fn lemma_notify_step_keeps_count(
    counter: u32,
    waiters: usize,
    threads: Seq<CondThread>,
    i: int,
    phase: NotifyPhase,
)
    requires
        waiters_counted(waiters, threads),
        0 <= i < threads.len(),
        threads[i] == CondThread::Notifying(phase),
    ensures
        waiters_counted(
            waiters,
            threads.update(i, CondThread::Notifying(notify_transition(counter, waiters, phase).1)),
        ),
{
    lemma_registered_count_update(
        threads,
        i,
        CondThread::Notifying(notify_transition(counter, waiters, phase).1),
    );
}

/// Law (no lost notification): a notifier that checks while some thread is
/// registered as a waiter goes on to bump the counter, and a bump always
/// changes the counter, so a waiter that read the counter before the bump
/// does not sleep through it.
pub proof fn lemma_notify_reaches_registered_waiter(
    counter: u32,
    waiters: usize,
    threads: Seq<CondThread>,
    j: int,
)
    requires
        waiters_counted(waiters, threads),
        0 <= j < threads.len(),
        is_registered(threads[j]),
    ensures
        notify_transition(counter, waiters, NotifyPhase::Check).1 == NotifyPhase::Bump,
        notify_transition(counter, waiters, NotifyPhase::Bump).0 != counter,
{
    lemma_registered_count_positive(threads, j);
}

} // verus!

verus! {

/// The counter `c` after `d` bumps, each adding one and wrapping around.
pub open spec fn bumped(c: u32, d: nat) -> u32
    decreases d,
{
    if d == 0 {
        c
    } else {
        word_op_effect(bumped(c, (d - 1) as nat), WordOp::FetchAdd(1, MemOrder::Relaxed)).0
    }
}

proof fn lemma_bumped_value(c: u32, d: nat)
    requires
        d < 0x1_0000_0000,
    ensures
        bumped(c, d) == (if c + d <= u32::MAX {
            c + d
        } else {
            c + d - 0x1_0000_0000
        }),
    decreases d,
{
    if d > 0 {
        lemma_bumped_value(c, (d - 1) as nat);
    }
}

/// A condition variable and the threads that use it: its counter and count
/// of waiters, where each thread stands, how many bumps of the counter have
/// been made, and for each thread the number of bumps made when it last
/// loaded the counter.
pub struct CondSystem {
    pub counter: u32,
    pub waiters: usize,
    pub threads: Seq<CondThread>,
    pub bumps: nat,
    pub read_at: Seq<nat>,
}

/// What one thread does next with the condition variable.
pub enum CondEvent {
    /// Starts to wait.
    StartWait,
    /// Starts to notify (one or all).
    StartNotify,
    /// Takes its next action inside `wait` or the notification.
    Step,
    /// Leaves: a waiter that is about to lock the mutex again, or a notifier
    /// that is done.
    Leave,
}

/// A new condition variable and `n` threads, none of which uses it yet.
pub open spec fn cond_initial(n: nat) -> CondSystem {
    CondSystem {
        counter: 0,
        waiters: 0,
        threads: Seq::new(n, |i: int| CondThread::Outside),
        bumps: 0,
        read_at: Seq::new(n, |i: int| 0nat),
    }
}

/// The system after thread `tid` does `e`; an event the thread cannot do
/// where it stands changes nothing.
pub open spec fn cond_apply(sys: CondSystem, tid: int, e: CondEvent) -> CondSystem {
    if !(0 <= tid < sys.threads.len() && sys.read_at.len() == sys.threads.len()) {
        sys
    } else {
        let t = sys.threads[tid];
        match e {
            CondEvent::StartWait => if t == CondThread::Outside {
                CondSystem {
                    threads: sys.threads.update(tid, CondThread::Waiting(WaitPhase::Register)),
                    ..sys
                }
            } else {
                sys
            },
            CondEvent::StartNotify => if t == CondThread::Outside {
                CondSystem {
                    threads: sys.threads.update(tid, CondThread::Notifying(NotifyPhase::Check)),
                    ..sys
                }
            } else {
                sys
            },
            CondEvent::Step => match t {
                CondThread::Waiting(p) => if p != WaitPhase::Relock {
                    let (c2, w2, p2) = wait_transition(sys.counter, sys.waiters, p);
                    CondSystem {
                        counter: c2,
                        waiters: w2,
                        threads: sys.threads.update(tid, CondThread::Waiting(p2)),
                        read_at: if p == WaitPhase::ReadCounter {
                            sys.read_at.update(tid, sys.bumps)
                        } else {
                            sys.read_at
                        },
                        ..sys
                    }
                } else {
                    sys
                },
                CondThread::Notifying(p) => if p != NotifyPhase::Done {
                    let (c2, p2) = notify_transition(sys.counter, sys.waiters, p);
                    CondSystem {
                        counter: c2,
                        threads: sys.threads.update(tid, CondThread::Notifying(p2)),
                        bumps: if p == NotifyPhase::Bump {
                            sys.bumps + 1
                        } else {
                            sys.bumps
                        },
                        ..sys
                    }
                } else {
                    sys
                },
                CondThread::Outside => sys,
            },
            CondEvent::Leave => if t == CondThread::Waiting(WaitPhase::Relock) || t
                == CondThread::Notifying(NotifyPhase::Done) {
                CondSystem { threads: sys.threads.update(tid, CondThread::Outside), ..sys }
            } else {
                sys
            },
        }
    }
}

/// The system after the events, in order.
pub open spec fn cond_run(sys: CondSystem, events: Seq<(int, CondEvent)>) -> CondSystem
    decreases events.len(),
{
    if events.len() == 0 {
        sys
    } else {
        cond_run(cond_apply(sys, events[0].0, events[0].1), events.drop_first())
    }
}

/// The counter value that a waiting thread loaded and will sleep on.
pub open spec fn loaded_counter(t: CondThread) -> Option<u32> {
    match t {
        CondThread::Waiting(WaitPhase::Release(c)) => Some(c),
        CondThread::Waiting(WaitPhase::Sleep(c)) => Some(c),
        _ => None,
    }
}

/// The count of waiters is right, and the counter is what each waiter that
/// loaded it saw, bumped once for every bump made since.
pub open spec fn cond_ok(sys: CondSystem) -> bool {
    &&& waiters_counted(sys.waiters, sys.threads)
    &&& sys.read_at.len() == sys.threads.len()
    &&& forall|j: int|
        0 <= j < sys.threads.len() && (#[trigger] loaded_counter(sys.threads[j])) is Some ==> {
            &&& sys.read_at[j] <= sys.bumps
            &&& sys.counter == bumped(
                loaded_counter(sys.threads[j])->0,
                (sys.bumps - sys.read_at[j]) as nat,
            )
        }
}

proof fn lemma_cond_apply_keeps(sys: CondSystem, tid: int, e: CondEvent)
    requires
        cond_ok(sys),
    ensures
        cond_ok(cond_apply(sys, tid, e)),
{
    if 0 <= tid < sys.threads.len() {
        let t = sys.threads[tid];
        let s2 = cond_apply(sys, tid, e);
        match e {
            CondEvent::StartWait => if t == CondThread::Outside {
                lemma_enter_or_leave_keeps_count(
                    sys.waiters,
                    sys.threads,
                    tid,
                    CondThread::Waiting(WaitPhase::Register),
                );
            },
            CondEvent::StartNotify => if t == CondThread::Outside {
                lemma_enter_or_leave_keeps_count(
                    sys.waiters,
                    sys.threads,
                    tid,
                    CondThread::Notifying(NotifyPhase::Check),
                );
            },
            CondEvent::Step => match t {
                CondThread::Waiting(p) => if p != WaitPhase::Relock {
                    lemma_wait_step_keeps_count(sys.counter, sys.waiters, sys.threads, tid, p);
                    assert forall|j: int|
                        0 <= j < s2.threads.len() && (#[trigger] loaded_counter(
                            s2.threads[j],
                        )) is Some implies s2.read_at[j] <= s2.bumps && s2.counter == bumped(
                        loaded_counter(s2.threads[j])->0,
                        (s2.bumps - s2.read_at[j]) as nat,
                    ) by {
                        if j != tid {
                            assert(s2.threads[j] == sys.threads[j]);
                            assert(loaded_counter(sys.threads[j]) is Some);
                        } else if p is Release {
                            assert(loaded_counter(sys.threads[j]) is Some);
                        }
                    }
                },
                CondThread::Notifying(p) => if p != NotifyPhase::Done {
                    lemma_notify_step_keeps_count(sys.counter, sys.waiters, sys.threads, tid, p);
                    assert forall|j: int|
                        0 <= j < s2.threads.len() && (#[trigger] loaded_counter(
                            s2.threads[j],
                        )) is Some implies s2.read_at[j] <= s2.bumps && s2.counter == bumped(
                        loaded_counter(s2.threads[j])->0,
                        (s2.bumps - s2.read_at[j]) as nat,
                    ) by {
                        assert(s2.threads[j] == sys.threads[j]);
                        assert(loaded_counter(sys.threads[j]) is Some);
                        if p == NotifyPhase::Bump {
                            assert((s2.bumps - s2.read_at[j]) as nat == ((sys.bumps
                                - sys.read_at[j]) as nat + 1) as nat);
                        }
                    }
                },
                CondThread::Outside => {},
            },
            CondEvent::Leave => if t == CondThread::Waiting(WaitPhase::Relock) || t
                == CondThread::Notifying(NotifyPhase::Done) {
                lemma_enter_or_leave_keeps_count(sys.waiters, sys.threads, tid, CondThread::Outside);
                assert forall|j: int|
                    0 <= j < s2.threads.len() && (#[trigger] loaded_counter(
                        s2.threads[j],
                    )) is Some implies s2.read_at[j] <= s2.bumps && s2.counter == bumped(
                    loaded_counter(s2.threads[j])->0,
                    (s2.bumps - s2.read_at[j]) as nat,
                ) by {
                    assert(s2.threads[j] == sys.threads[j]);
                    assert(loaded_counter(sys.threads[j]) is Some);
                }
            },
        }
    }
}

proof fn lemma_cond_run_keeps(sys: CondSystem, events: Seq<(int, CondEvent)>)
    requires
        cond_ok(sys),
    ensures
        cond_ok(cond_run(sys, events)),
    decreases events.len(),
{
    if events.len() > 0 {
        lemma_cond_apply_keeps(sys, events[0].0, events[0].1);
        lemma_cond_run_keeps(cond_apply(sys, events[0].0, events[0].1), events.drop_first());
    }
}

/// Law (no lost notification over whole runs): from a new condition
/// variable and fewer than `usize::MAX` threads, after any events, the count
/// of waiters equals the number of registered threads, and a waiter that
/// loaded the counter before a bump (and fewer than 2^32 bumps ago) does not
/// sleep: the counter differs from the value it would sleep on.
pub proof fn lemma_cond_run_wakes_waiters(n: nat, events: Seq<(int, CondEvent)>)
    requires
        n < usize::MAX,
    ensures
        ({
            let s = cond_run(cond_initial(n), events);
            &&& waiters_counted(s.waiters, s.threads)
            &&& forall|j: int|
                0 <= j < s.threads.len() && (#[trigger] loaded_counter(s.threads[j])) is Some
                    && s.read_at[j] < s.bumps < s.read_at[j] + 0x1_0000_0000 ==> s.counter
                    != loaded_counter(s.threads[j])->0
        }),
{
    let s0 = cond_initial(n);
    assert(registered_count(s0.threads) == 0) by {
        lemma_registered_count_zero(s0.threads);
    }
    lemma_cond_run_keeps(s0, events);
    let s = cond_run(s0, events);
    assert forall|j: int|
        0 <= j < s.threads.len() && (#[trigger] loaded_counter(s.threads[j])) is Some
            && s.read_at[j] < s.bumps < s.read_at[j] + 0x1_0000_0000 implies s.counter
        != loaded_counter(s.threads[j])->0 by {
        lemma_bumped_value(loaded_counter(s.threads[j])->0, (s.bumps - s.read_at[j]) as nat);
    }
}

proof fn lemma_registered_count_zero(threads: Seq<CondThread>)
    requires
        forall|k: int| 0 <= k < threads.len() ==> threads[k] == CondThread::Outside,
    ensures
        registered_count(threads) == 0,
    decreases threads.len(),
{
    if threads.len() > 0 {
        lemma_registered_count_zero(threads.drop_last());
    }
}

} // verus!

verus! {

/// The phases a whole wait goes through from `Register`, when loading the
/// counter returns `c` and every other action returns `x`.
pub open spec fn wait_phases(c: u32, x: u32) -> Seq<WaitPhase> {
    let p0 = WaitPhase::Register;
    let p1 = spec_wait_advance(p0, x);
    let p2 = spec_wait_advance(p1, c);
    let p3 = spec_wait_advance(p2, x);
    let p4 = spec_wait_advance(p3, x);
    let p5 = spec_wait_advance(p4, x);
    seq![p0, p1, p2, p3, p4, p5]
}

/// Law (a wait releases the mutex before it sleeps): whatever the
/// instructions return, a whole wait registers as a waiter, loads the
/// counter, unlocks the mutex, sleeps on the counter value it loaded, takes
/// itself off the waiters and locks the mutex again, in that order. It
/// sleeps at exactly one phase, after the unlock, and unlocks and locks the
/// mutex exactly once each.
pub proof fn lemma_wait_unlocks_before_sleeping(c: u32, x: u32)
    ensures
        wait_phases(c, x).map_values(|p: WaitPhase| spec_wait_action(p)) == seq![
            WaitAction::Waiters(CountOp::FetchAdd(1, MemOrder::Relaxed)),
            WaitAction::Counter(WordOp::Load(MemOrder::Relaxed)),
            WaitAction::UnlockMutex,
            WaitAction::WaitCounter(c),
            WaitAction::Waiters(CountOp::FetchSub(1, MemOrder::Relaxed)),
            WaitAction::LockMutex,
        ],
        forall|p: WaitPhase| #[trigger] spec_wait_action(p) is WaitCounter ==> p is Sleep,
        forall|p: WaitPhase| #[trigger] spec_wait_action(p) is UnlockMutex ==> p is Release,
        forall|p: WaitPhase| #[trigger] spec_wait_action(p) is LockMutex ==> p == WaitPhase::Relock,
{
    assert(wait_phases(c, x).map_values(|p: WaitPhase| spec_wait_action(p)) =~= seq![
        WaitAction::Waiters(CountOp::FetchAdd(1, MemOrder::Relaxed)),
        WaitAction::Counter(WordOp::Load(MemOrder::Relaxed)),
        WaitAction::UnlockMutex,
        WaitAction::WaitCounter(c),
        WaitAction::Waiters(CountOp::FetchSub(1, MemOrder::Relaxed)),
        WaitAction::LockMutex,
    ]);
}

/// Law (a notification that finds waiters wakes them): a notifier that
/// loads a count of waiters `w > 0` bumps the counter, then wakes the
/// threads sleeping on it, then is done, three actions after its check; one
/// that finds none is done at once. It is finished only at `Done`.
pub proof fn lemma_notify_wakes_after_bump(counter: u32, w: usize)
    ensures
        ({
            let (c1, p1) = notify_transition(counter, w, NotifyPhase::Check);
            let (c2, p2) = notify_transition(c1, w, p1);
            let (c3, p3) = notify_transition(c2, w, p2);
            &&& w > 0 ==> {
                &&& spec_notify_action(p1) == NotifyAction::Counter(
                    WordOp::FetchAdd(1, MemOrder::Relaxed),
                )
                &&& spec_notify_action(p2) == NotifyAction::WakeCounter
                &&& c2 != counter
                &&& p3 == NotifyPhase::Done
                &&& c3 == c2
            }
            &&& w == 0 ==> p1 == NotifyPhase::Done && c1 == counter
        }),
        forall|p: NotifyPhase| (#[trigger] spec_notify_action(p) is Finished) == (p == NotifyPhase::Done),
{
}

} // verus!
