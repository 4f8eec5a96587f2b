//! A mutual-exclusion lock over a three-state futex word.
use crate::word::{apply_word_op, word_op_effect, MemOrder, WordOp};
use vstd::prelude::*;

verus! {

/// Nobody holds the lock.
pub const UNLOCKED: u32 = 0;

/// A thread holds the lock and no other thread has announced that it waits.
pub const LOCKED: u32 = 1;

/// A thread holds the lock and other threads may be waiting for it.
pub const LOCKED_WITH_WAITERS: u32 = 2;

/// Where a thread stands inside `Mutex::lock`.
#[derive(Clone, Copy, Debug, PartialEq, Eq, Structural)]
pub enum LockPhase {
    /// About to try the uncontended path: swing the word from unlocked to locked.
    Start,
    /// About to swap in `LOCKED_WITH_WAITERS`, announcing itself as a waiter.
    Contend,
    /// About to sleep while the word is `LOCKED_WITH_WAITERS`.
    Sleep,
    /// Holds the lock.
    Held,
}

/// What a thread does next inside `Mutex::lock`.
#[derive(Clone, Copy, Debug, PartialEq, Eq, Structural)]
pub enum LockAction {
    /// Issue this instruction on the state word and advance on its result.
    Atomic(WordOp),
    /// Sleep until woken or until the state word no longer holds this value.
    Wait(u32),
    /// The lock is held.
    Finished,
}

pub open spec fn spec_lock_action(phase: LockPhase) -> LockAction {
    match phase {
        LockPhase::Start => LockAction::Atomic(
            WordOp::CompareExchange(UNLOCKED, LOCKED, MemOrder::Acquire, MemOrder::Relaxed),
        ),
        LockPhase::Contend => LockAction::Atomic(
            WordOp::Swap(LOCKED_WITH_WAITERS, MemOrder::Acquire),
        ),
        LockPhase::Sleep => LockAction::Wait(LOCKED_WITH_WAITERS),
        LockPhase::Held => LockAction::Finished,
    }
}

/// The phase that follows `phase` once its action returned `observed` (a
/// wait returns nothing, and `observed` is then ignored).
pub open spec fn spec_lock_advance(phase: LockPhase, observed: u32) -> LockPhase {
    match phase {
        LockPhase::Start => if observed == UNLOCKED {
            LockPhase::Held
        } else {
            LockPhase::Contend
        },
        LockPhase::Contend => if observed == UNLOCKED {
            LockPhase::Held
        } else {
            LockPhase::Sleep
        },
        LockPhase::Sleep => LockPhase::Contend,
        LockPhase::Held => LockPhase::Held,
    }
}

/// The action a thread at `phase` takes next.
pub fn lock_action(phase: LockPhase) -> (r: LockAction)
    ensures
        r == spec_lock_action(phase),
{
    match phase {
        LockPhase::Start => LockAction::Atomic(
            WordOp::CompareExchange(UNLOCKED, LOCKED, MemOrder::Acquire, MemOrder::Relaxed),
        ),
        LockPhase::Contend => LockAction::Atomic(
            WordOp::Swap(LOCKED_WITH_WAITERS, MemOrder::Acquire),
        ),
        LockPhase::Sleep => LockAction::Wait(LOCKED_WITH_WAITERS),
        LockPhase::Held => LockAction::Finished,
    }
}

/// The phase that follows `phase` once its action returned `observed`.
pub fn lock_advance(phase: LockPhase, observed: u32) -> (r: LockPhase)
    ensures
        r == spec_lock_advance(phase, observed),
{
    match phase {
        LockPhase::Start => if observed == UNLOCKED {
            LockPhase::Held
        } else {
            LockPhase::Contend
        },
        LockPhase::Contend => if observed == UNLOCKED {
            LockPhase::Held
        } else {
            LockPhase::Sleep
        },
        LockPhase::Sleep => LockPhase::Contend,
        LockPhase::Held => LockPhase::Held,
    }
}

/// The state word after the thread at `phase` takes its next action on
/// `state`, and the thread's next phase. An instruction advances on what it
/// returned; a wait leaves the word unchanged and advances on the value it
/// waited on, as the driver of `lock` does; a thread that has finished
/// stays where it is.
pub open spec fn lock_transition(state: u32, phase: LockPhase) -> (u32, LockPhase) {
    match spec_lock_action(phase) {
        LockAction::Atomic(op) => {
            let (s, observed) = word_op_effect(state, op);
            (s, spec_lock_advance(phase, observed))
        },
        LockAction::Wait(v) => (state, spec_lock_advance(phase, v)),
        LockAction::Finished => (state, phase),
    }
}

/// The instruction that releases the lock.
pub fn unlock_op() -> (r: WordOp)
    ensures
        r == WordOp::Swap(UNLOCKED, MemOrder::Release),
{
    WordOp::Swap(UNLOCKED, MemOrder::Release)
}

/// Whether releasing a lock whose word was `previous` must wake a waiter.
pub fn must_wake(previous: u32) -> (r: bool)
    ensures
        r == (previous == LOCKED_WITH_WAITERS),
{
    previous == LOCKED_WITH_WAITERS
}

/// A mutex: its state word, and the value it guards while no guard holds it.
pub struct Mutex<T> {
    state: u32,
    value: Option<T>,
    id: Ghost<int>,
}

/// Exclusive access to the value of a `Mutex`, from a lock to its unlock.
pub struct MutexGuard<T> {
    value: T,
    lock_id: Ghost<int>,
}

impl<T> Mutex<T> {
    /// The state word.
    pub closed spec fn state(&self) -> u32 {
        self.state
    }

    /// The guarded value, absent while a guard holds it.
    pub closed spec fn value(&self) -> Option<T> {
        self.value
    }

    /// Which mutex this is: the guards it hands out carry it, and only they
    /// unlock it.
    pub closed spec fn id(&self) -> int {
        self.id@
    }

    /// The state word.
    pub fn state_word(&self) -> (r: u32)
        ensures
            r == self.state(),
    {
        self.state
    }

    /// The word is one of the three states, and the value is in the mutex
    /// exactly when the mutex is unlocked.
    pub closed spec fn wf(&self) -> bool {
        &&& self.state <= LOCKED_WITH_WAITERS
        &&& (self.state == UNLOCKED) == (self.value is Some)
    }

    /// An unlocked mutex guarding `value`.
    pub fn new(value: T) -> (m: Self)
        ensures
            m.wf(),
            m.state() == UNLOCKED,
            m.value() == Some(value),
    {
        Mutex { state: UNLOCKED, value: Some(value), id: Ghost(vstd::pervasive::arbitrary()) }
    }

    /// Takes the next action of a thread at `phase` inside `lock`. When the
    /// thread acquires the lock, the value moves into the guard returned.
    pub fn lock_step(&mut self, phase: LockPhase) -> (r: Result<MutexGuard<T>, LockPhase>)
        requires
            old(self).wf(),
            phase != LockPhase::Held,
        ensures
            final(self).wf(),
            final(self).id() == old(self).id(),
            final(self).state() == lock_transition(old(self).state(), phase).0,
            lock_transition(old(self).state(), phase).1 == LockPhase::Held ==> {
                &&& r is Ok
                &&& old(self).value() == Some(r->Ok_0.value())
                &&& r->Ok_0.lock_id() == old(self).id()
                &&& final(self).value() is None
            },
            lock_transition(old(self).state(), phase).1 != LockPhase::Held ==> {
                &&& r == Err::<MutexGuard<T>, LockPhase>(lock_transition(old(self).state(), phase).1)
                &&& final(self).value() == old(self).value()
            },
    {
        let next = match lock_action(phase) {
            LockAction::Atomic(op) => {
                let observed = apply_word_op(&mut self.state, op);
                lock_advance(phase, observed)
            },
            LockAction::Wait(v) => lock_advance(phase, v),
            LockAction::Finished => phase,
        };
        match next {
            LockPhase::Held => {
                let value = self.value.take();
                match value {
                    Some(value) => Ok(MutexGuard { value, lock_id: Ghost(self.id@) }),
                    None => vstd::pervasive::unreached(),
                }
            },
            _ => Err(next),
        }
    }

    /// Locks a mutex that no thread holds: the uncontended path succeeds on
    /// its first instruction. (A thread that locks a held mutex sleeps until
    /// another thread unlocks it; see `lock_step`.)
    pub fn lock(&mut self) -> (g: MutexGuard<T>)
        requires
            old(self).wf(),
            old(self).state() == UNLOCKED,
        ensures
            final(self).wf(),
            final(self).state() == LOCKED,
            old(self).value() == Some(g.value()),
            g.lock_id() == old(self).id(),
            final(self).id() == old(self).id(),
            final(self).value() is None,
    {
        match self.lock_step(LockPhase::Start) {
            Ok(g) => g,
            Err(_) => vstd::pervasive::unreached(),
        }
    }

    /// Releases the lock held through `guard`, whose value moves back into
    /// the mutex, and returns whether a waiter must be woken.
    pub fn unlock(&mut self, guard: MutexGuard<T>) -> (wake: bool)
        requires
            old(self).wf(),
            old(self).state() != UNLOCKED,
            guard.lock_id() == old(self).id(),
        ensures
            final(self).wf(),
            final(self).id() == old(self).id(),
            final(self).state() == UNLOCKED,
            final(self).value() == Some(guard.value()),
            wake == (old(self).state() == LOCKED_WITH_WAITERS),
    {
        let previous = apply_word_op(&mut self.state, unlock_op());
        self.value = Some(guard.value);
        must_wake(previous)
    }
}

impl<T> MutexGuard<T> {
    /// The guarded value.
    pub closed spec fn value(&self) -> T {
        self.value
    }

    /// The mutex this guard holds.
    pub closed spec fn lock_id(&self) -> int {
        self.lock_id@
    }

    /// The guarded value.
    pub fn get(&self) -> (r: &T)
        ensures
            *r == self.value(),
    {
        &self.value
    }

    /// Replaces the guarded value.
    pub fn set(&mut self, value: T)
        ensures
            final(self).value() == value,
            final(self).lock_id() == old(self).lock_id(),
    {
        self.value = value;
    }
}

/// A mutex word `state` and the threads at `threads`, each either outside
/// `lock` (`None`) or at a phase of it: the word is one of the three states,
/// at most one thread holds the lock, and the word is unlocked exactly when
/// none does.
pub open spec fn mutex_exclusive(state: u32, threads: Seq<Option<LockPhase>>) -> bool {
    &&& state <= LOCKED_WITH_WAITERS
    &&& forall|i: int, j: int|
        0 <= i < threads.len() && 0 <= j < threads.len() && #[trigger] threads[i] == Some(
            LockPhase::Held,
        ) && #[trigger] threads[j] == Some(LockPhase::Held) ==> i == j
    &&& (state == UNLOCKED) == (forall|i: int|
        0 <= i < threads.len() ==> #[trigger] threads[i] != Some(LockPhase::Held))
}

/// Law (mutual exclusion): an action of any thread inside `lock` keeps at
/// most one holder, and the word unlocked exactly when there is none.
pub proof fn lemma_lock_step_keeps_exclusion(state: u32, threads: Seq<Option<LockPhase>>, i: int)
    requires
        mutex_exclusive(state, threads),
        0 <= i < threads.len(),
        threads[i] is Some,
        threads[i] != Some(LockPhase::Held),
    ensures
        ({
            let (s2, p2) = lock_transition(state, threads[i]->0);
            mutex_exclusive(s2, threads.update(i, Some(p2)))
        }),
{
    let (s2, p2) = lock_transition(state, threads[i]->0);
    let t2 = threads.update(i, Some(p2));
    if p2 == LockPhase::Held {
        assert forall|k: int| 0 <= k < threads.len() && k != i implies #[trigger] threads[k]
            != Some(LockPhase::Held) by {}
        assert(t2[i] == Some(LockPhase::Held));
    } else if s2 == UNLOCKED {
        assert forall|k: int| 0 <= k < t2.len() implies #[trigger] t2[k] != Some(
            LockPhase::Held,
        ) by {
            if k != i {
                assert(threads[k] != Some(LockPhase::Held));
            }
        }
    } else {
        if state == UNLOCKED {
            assert(false);
        }
        let h = choose|h: int| 0 <= h < threads.len() && threads[h] == Some(LockPhase::Held);
        assert(t2[h] == Some(LockPhase::Held));
    }
}

/// Law: unlocking by the holder leaves the mutex unlocked with no holder.
pub proof fn lemma_unlock_keeps_exclusion(state: u32, threads: Seq<Option<LockPhase>>, i: int)
    requires
        mutex_exclusive(state, threads),
        0 <= i < threads.len(),
        threads[i] == Some(LockPhase::Held),
    ensures
        mutex_exclusive(UNLOCKED, threads.update(i, None)),
{
    let t2 = threads.update(i, None);
    assert forall|k: int| 0 <= k < t2.len() implies #[trigger] t2[k] != Some(LockPhase::Held) by {
        if k != i {
            assert(threads[k] != Some(LockPhase::Held));
        }
    }
}

/// Law: a thread that enters `lock` keeps the system exclusive.
pub proof fn lemma_enter_keeps_exclusion(state: u32, threads: Seq<Option<LockPhase>>, i: int)
    requires
        mutex_exclusive(state, threads),
        0 <= i < threads.len(),
        threads[i] is None,
    ensures
        mutex_exclusive(state, threads.update(i, Some(LockPhase::Start))),
{
    let t2 = threads.update(i, Some(LockPhase::Start));
    assert forall|a: int, b: int|
        0 <= a < t2.len() && 0 <= b < t2.len() && #[trigger] t2[a] == Some(LockPhase::Held)
            && #[trigger] t2[b] == Some(LockPhase::Held) implies a == b by {
        assert(threads[a] == Some(LockPhase::Held));
        assert(threads[b] == Some(LockPhase::Held));
    }
    if state == UNLOCKED {
        assert forall|k: int| 0 <= k < t2.len() implies #[trigger] t2[k] != Some(
            LockPhase::Held,
        ) by {
            if k != i {
                assert(threads[k] != Some(LockPhase::Held));
            }
        }
    } else {
        let h = choose|h: int| 0 <= h < threads.len() && threads[h] == Some(LockPhase::Held);
        assert(t2[h] == Some(LockPhase::Held));
    }
}

/// Law (no lost wake-up): while the word says `LOCKED_WITH_WAITERS`, some
/// thread holds the lock, and its unlock finds that value and asks for a
/// wake-up; a thread that sleeps on the word therefore has a waker.
pub proof fn lemma_waiters_have_a_holder(state: u32, threads: Seq<Option<LockPhase>>)
    requires
        mutex_exclusive(state, threads),
        state == LOCKED_WITH_WAITERS,
    ensures
        exists|h: int| 0 <= h < threads.len() && threads[h] == Some(LockPhase::Held),
{
}

} // verus!

verus! {

/// What one thread does next with the mutex.
pub enum MutexEvent {
    /// Starts to lock.
    Enter,
    /// Takes the next action inside `lock`.
    Step,
    /// Releases the lock it holds.
    Unlock,
}

/// The state word and where each thread stands after thread `tid` does `e`;
/// an event the thread cannot do where it stands changes nothing.
pub open spec fn mutex_apply(
    state: u32,
    threads: Seq<Option<LockPhase>>,
    tid: int,
    e: MutexEvent,
) -> (u32, Seq<Option<LockPhase>>) {
    if !(0 <= tid < threads.len()) {
        (state, threads)
    } else {
        match e {
            MutexEvent::Enter => if threads[tid] is None {
                (state, threads.update(tid, Some(LockPhase::Start)))
            } else {
                (state, threads)
            },
            MutexEvent::Step => if threads[tid] is Some && threads[tid] != Some(LockPhase::Held) {
                let (s2, p2) = lock_transition(state, threads[tid]->0);
                (s2, threads.update(tid, Some(p2)))
            } else {
                (state, threads)
            },
            MutexEvent::Unlock => if threads[tid] == Some(LockPhase::Held) {
                (UNLOCKED, threads.update(tid, None))
            } else {
                (state, threads)
            },
        }
    }
}

/// The state word and where each thread stands after the events, in order.
pub open spec fn mutex_run(
    state: u32,
    threads: Seq<Option<LockPhase>>,
    events: Seq<(int, MutexEvent)>,
) -> (u32, Seq<Option<LockPhase>>)
    decreases events.len(),
{
    if events.len() == 0 {
        (state, threads)
    } else {
        let (s1, t1) = mutex_apply(state, threads, events[0].0, events[0].1);
        mutex_run(s1, t1, events.drop_first())
    }
}

proof fn lemma_mutex_run_keeps_exclusion(
    state: u32,
    threads: Seq<Option<LockPhase>>,
    events: Seq<(int, MutexEvent)>,
)
    requires
        mutex_exclusive(state, threads),
    ensures
        mutex_exclusive(mutex_run(state, threads, events).0, mutex_run(state, threads, events).1),
    decreases events.len(),
{
    if events.len() > 0 {
        let (tid, e) = events[0];
        if 0 <= tid < threads.len() {
            match e {
                MutexEvent::Enter => if threads[tid] is None {
                    lemma_enter_keeps_exclusion(state, threads, tid);
                },
                MutexEvent::Step => if threads[tid] is Some && threads[tid] != Some(
                    LockPhase::Held,
                ) {
                    lemma_lock_step_keeps_exclusion(state, threads, tid);
                },
                MutexEvent::Unlock => if threads[tid] == Some(LockPhase::Held) {
                    lemma_unlock_keeps_exclusion(state, threads, tid);
                },
            }
        }
        let (s1, t1) = mutex_apply(state, threads, tid, e);
        lemma_mutex_run_keeps_exclusion(s1, t1, events.drop_first());
    }
}

/// Law (mutual exclusion over whole runs): from a new mutex and `n` threads
/// outside it, after any events, at most one thread holds the lock, and the
/// word is unlocked exactly when none does.
pub proof fn lemma_mutex_run_exclusive(n: nat, events: Seq<(int, MutexEvent)>)
    ensures
        ({
            let (s, t) = mutex_run(UNLOCKED, Seq::new(n, |i: int| None::<LockPhase>), events);
            &&& mutex_exclusive(s, t)
            &&& forall|i: int, j: int|
                0 <= i < t.len() && 0 <= j < t.len() && #[trigger] t[i] == Some(LockPhase::Held)
                    && #[trigger] t[j] == Some(LockPhase::Held) ==> i == j
        }),
{
    lemma_mutex_run_keeps_exclusion(UNLOCKED, Seq::new(n, |i: int| None::<LockPhase>), events);
}

} // verus!

verus! {

/// A mutex guarding a number that its holders increment: the word, where
/// each thread stands, the number while it is in the mutex, the number in
/// each thread's guard, and how many increments have been made.
pub struct CountingMutex {
    pub state: u32,
    pub threads: Seq<Option<LockPhase>>,
    pub value: Option<int>,
    pub guards: Seq<Option<int>>,
    pub increments: nat,
}

/// What one thread does next with a counting mutex.
pub enum CountingEvent {
    /// Starts to lock.
    Enter,
    /// Takes the next action inside `lock`; when it takes the lock, the
    /// number moves from the mutex into its guard.
    Step,
    /// Adds one to the number in its guard.
    Increment,
    /// Releases the lock; the number moves back into the mutex.
    Unlock,
}

/// The system after thread `tid` does `e`; an event the thread cannot do
/// where it stands changes nothing.
pub open spec fn counting_apply(sys: CountingMutex, tid: int, e: CountingEvent) -> CountingMutex {
    if !(0 <= tid < sys.threads.len() && sys.guards.len() == sys.threads.len()) {
        sys
    } else {
        match e {
            CountingEvent::Enter => {
                let (s, t) = mutex_apply(sys.state, sys.threads, tid, MutexEvent::Enter);
                CountingMutex { state: s, threads: t, ..sys }
            },
            CountingEvent::Step => {
                let (s, t) = mutex_apply(sys.state, sys.threads, tid, MutexEvent::Step);
                if sys.threads[tid] != Some(LockPhase::Held) && t[tid] == Some(LockPhase::Held) {
                    CountingMutex {
                        state: s,
                        threads: t,
                        value: None,
                        guards: sys.guards.update(tid, sys.value),
                        ..sys
                    }
                } else {
                    CountingMutex { state: s, threads: t, ..sys }
                }
            },
            CountingEvent::Increment => match sys.guards[tid] {
                Some(v) => CountingMutex {
                    guards: sys.guards.update(tid, Some(v + 1)),
                    increments: sys.increments + 1,
                    ..sys
                },
                None => sys,
            },
            CountingEvent::Unlock => if sys.threads[tid] == Some(LockPhase::Held) {
                let (s, t) = mutex_apply(sys.state, sys.threads, tid, MutexEvent::Unlock);
                CountingMutex {
                    state: s,
                    threads: t,
                    value: sys.guards[tid],
                    guards: sys.guards.update(tid, None),
                    ..sys
                }
            } else {
                sys
            },
        }
    }
}

/// The system after the events, in order.
pub open spec fn counting_run(sys: CountingMutex, events: Seq<(int, CountingEvent)>) -> CountingMutex
    decreases events.len(),
{
    if events.len() == 0 {
        sys
    } else {
        counting_run(counting_apply(sys, events[0].0, events[0].1), events.drop_first())
    }
}

/// The number is in exactly one place, the mutex while nobody holds it or
/// the holder's guard, and it is the initial number plus every increment
/// made.
pub open spec fn counting_ok(sys: CountingMutex, init: int) -> bool {
    &&& mutex_exclusive(sys.state, sys.threads)
    &&& sys.guards.len() == sys.threads.len()
    &&& forall|i: int|
        0 <= i < sys.guards.len() ==> (#[trigger] sys.guards[i] is Some <==> sys.threads[i]
            == Some(LockPhase::Held))
    &&& (sys.value is Some) == (sys.state == UNLOCKED)
    &&& sys.value is Some ==> sys.value == Some(init + sys.increments)
    &&& forall|i: int|
        0 <= i < sys.guards.len() && #[trigger] sys.guards[i] is Some ==> sys.guards[i] == Some(
            init + sys.increments,
        )
}

proof fn lemma_counting_apply_keeps(sys: CountingMutex, init: int, tid: int, e: CountingEvent)
    requires
        counting_ok(sys, init),
    ensures
        counting_ok(counting_apply(sys, tid, e), init),
{
    if 0 <= tid < sys.threads.len() {
        let s2 = counting_apply(sys, tid, e);
        match e {
            CountingEvent::Enter => {
                if sys.threads[tid] is None {
                    lemma_enter_keeps_exclusion(sys.state, sys.threads, tid);
                }
                assert forall|i: int| 0 <= i < s2.guards.len() implies (#[trigger] s2.guards[i]
                    is Some <==> s2.threads[i] == Some(LockPhase::Held)) by {
                    assert(sys.guards[i] is Some <==> sys.threads[i] == Some(LockPhase::Held));
                }
            },
            CountingEvent::Step => {
                if sys.threads[tid] is Some && sys.threads[tid] != Some(LockPhase::Held) {
                    lemma_lock_step_keeps_exclusion(sys.state, sys.threads, tid);
                    let p = sys.threads[tid]->0;
                    if s2.threads[tid] == Some(LockPhase::Held) {
                        assert(sys.state == UNLOCKED);
                    }
                }
                assert forall|i: int| 0 <= i < s2.guards.len() implies (#[trigger] s2.guards[i]
                    is Some <==> s2.threads[i] == Some(LockPhase::Held)) by {
                    assert(sys.guards[i] is Some <==> sys.threads[i] == Some(LockPhase::Held));
                }
                if s2.value is None && sys.value is Some {
                    assert(s2.threads[tid] == Some(LockPhase::Held));
                }
                if s2.value is Some {
                    if s2.state != UNLOCKED {
                        assert(sys.state == UNLOCKED);
                    }
                }
            },
            CountingEvent::Increment => {
                assert forall|i: int|
                    0 <= i < s2.guards.len() && #[trigger] s2.guards[i] is Some implies s2.guards[i]
                        == Some(init + s2.increments) by {
                    if sys.guards[tid] is Some && i != tid {
                        assert(sys.threads[tid] == Some(LockPhase::Held));
                        assert(sys.threads[i] == Some(LockPhase::Held));
                    }
                }
                if sys.guards[tid] is Some {
                    assert(sys.threads[tid] == Some(LockPhase::Held));
                }
            },
            CountingEvent::Unlock => {
                if sys.threads[tid] == Some(LockPhase::Held) {
                    lemma_unlock_keeps_exclusion(sys.state, sys.threads, tid);
                    assert forall|i: int| 0 <= i < s2.guards.len() implies (
                    #[trigger] s2.guards[i] is Some <==> s2.threads[i] == Some(LockPhase::Held)) by {
                        assert(sys.guards[i] is Some <==> sys.threads[i] == Some(LockPhase::Held));
                    }
                }
            },
        }
    }
}

proof fn lemma_counting_run_keeps(sys: CountingMutex, init: int, events: Seq<(int, CountingEvent)>)
    requires
        counting_ok(sys, init),
    ensures
        counting_ok(counting_run(sys, events), init),
    decreases events.len(),
{
    if events.len() > 0 {
        lemma_counting_apply_keeps(sys, init, events[0].0, events[0].1);
        lemma_counting_run_keeps(
            counting_apply(sys, events[0].0, events[0].1),
            init,
            events.drop_first(),
        );
    }
}

/// Law (no update made under the lock is lost): from a new mutex holding
/// `init` and `n` threads outside it, after any events, once no thread holds
/// the lock the mutex holds `init` plus the number of increments made; while
/// a thread holds it, that thread's guard holds that number.
pub proof fn lemma_counting_run_adds_up(n: nat, init: int, events: Seq<(int, CountingEvent)>)
    ensures
        ({
            let s = counting_run(
                CountingMutex {
                    state: UNLOCKED,
                    threads: Seq::new(n, |i: int| None::<LockPhase>),
                    value: Some(init),
                    guards: Seq::new(n, |i: int| None::<int>),
                    increments: 0,
                },
                events,
            );
            &&& s.state == UNLOCKED ==> s.value == Some(init + s.increments)
            &&& forall|i: int|
                0 <= i < s.guards.len() && #[trigger] s.threads[i] == Some(LockPhase::Held)
                    ==> s.guards[i] == Some(init + s.increments)
        }),
{
    let s0 = CountingMutex {
        state: UNLOCKED,
        threads: Seq::new(n, |i: int| None::<LockPhase>),
        value: Some(init),
        guards: Seq::new(n, |i: int| None::<int>),
        increments: 0,
    };
    assert(counting_ok(s0, init));
    lemma_counting_run_keeps(s0, init, events);
    let s = counting_run(s0, events);
    assert forall|i: int|
        0 <= i < s.guards.len() && #[trigger] s.threads[i] == Some(LockPhase::Held) implies s.guards[i]
        == Some(init + s.increments) by {
        assert(s.guards[i] is Some);
    }
}

} // verus!

verus! {

/// Law (progress without interference): once the mutex is unlocked, a
/// thread inside `lock`, whatever its phase (a sleeper included), holds the
/// lock after at most two actions of its own, if no other thread acts.
pub proof fn lemma_unlocked_mutex_taken_in_two_steps(
    state: u32,
    threads: Seq<Option<LockPhase>>,
    w: int,
)
    requires
        mutex_exclusive(state, threads),
        state == UNLOCKED,
        0 <= w < threads.len(),
        threads[w] is Some,
    ensures
        mutex_run(state, threads, seq![(w, MutexEvent::Step), (w, MutexEvent::Step)]).1[w] == Some(
            LockPhase::Held,
        ),
{
    let events = seq![(w, MutexEvent::Step), (w, MutexEvent::Step)];
    let (s1, t1) = mutex_apply(state, threads, w, MutexEvent::Step);
    let (s2, t2) = mutex_apply(s1, t1, w, MutexEvent::Step);
    assert(events.drop_first() =~= seq![(w, MutexEvent::Step)]);
    assert(events.drop_first().drop_first() =~= Seq::<(int, MutexEvent)>::empty());
    assert(mutex_run(s2, t2, events.drop_first().drop_first()) == (s2, t2));
    assert(mutex_run(s1, t1, events.drop_first()) == mutex_run(s2, t2, events.drop_first().drop_first()));
}

/// Law (a sleeping waiter gets the lock): when the holder `h` unlocks while
/// thread `w` waits inside `lock` (asleep or not), `w` holds the lock after
/// at most two actions of its own, if no other thread acts in between.
pub proof fn lemma_waiter_takes_lock_after_unlock(
    state: u32,
    threads: Seq<Option<LockPhase>>,
    h: int,
    w: int,
)
    requires
        mutex_exclusive(state, threads),
        0 <= h < threads.len(),
        0 <= w < threads.len(),
        threads[h] == Some(LockPhase::Held),
        threads[w] is Some,
        w != h,
    ensures
        mutex_run(
            state,
            threads,
            seq![(h, MutexEvent::Unlock), (w, MutexEvent::Step), (w, MutexEvent::Step)],
        ).1[w] == Some(LockPhase::Held),
{
    let events = seq![(h, MutexEvent::Unlock), (w, MutexEvent::Step), (w, MutexEvent::Step)];
    let (s1, t1) = mutex_apply(state, threads, h, MutexEvent::Unlock);
    lemma_unlock_keeps_exclusion(state, threads, h);
    assert(events.drop_first() =~= seq![(w, MutexEvent::Step), (w, MutexEvent::Step)]);
    lemma_unlocked_mutex_taken_in_two_steps(s1, t1, w);
}

} // verus!

verus! {

/// Law (`lock` returns a guard only to the holder): a thread's next action
/// inside `lock` is `Finished` exactly when it holds the lock; so, in any
/// consistent state, a thread whose action is `Finished` is the one holder
/// and the word is locked.
pub proof fn lemma_lock_finishes_only_holding(
    state: u32,
    threads: Seq<Option<LockPhase>>,
    i: int,
)
    requires
        mutex_exclusive(state, threads),
        0 <= i < threads.len(),
        threads[i] is Some,
    ensures
        (spec_lock_action(threads[i]->0) is Finished) == (threads[i] == Some(LockPhase::Held)),
        spec_lock_action(threads[i]->0) is Finished ==> {
            &&& state != UNLOCKED
            &&& forall|k: int|
                0 <= k < threads.len() && k != i ==> #[trigger] threads[k] != Some(LockPhase::Held)
        },
{
}

/// Law (a woken waiter contends again): a wait returns nothing, so whatever
/// value the driver hands back after it, a thread that slept goes on to swap
/// in `LOCKED_WITH_WAITERS`, and it sleeps again only if that swap finds the
/// mutex still held; a sleeping thread waits on the word exactly while it
/// says `LOCKED_WITH_WAITERS`.
pub proof fn lemma_woken_waiter_contends(observed: u32, other: u32)
    ensures
        spec_lock_advance(LockPhase::Sleep, observed) == spec_lock_advance(LockPhase::Sleep, other),
        spec_lock_action(spec_lock_advance(LockPhase::Sleep, observed)) == LockAction::Atomic(
            WordOp::Swap(LOCKED_WITH_WAITERS, MemOrder::Acquire),
        ),
        spec_lock_advance(spec_lock_advance(LockPhase::Sleep, observed), UNLOCKED)
            == LockPhase::Held,
        spec_lock_action(LockPhase::Sleep) == LockAction::Wait(LOCKED_WITH_WAITERS),
        forall|p: LockPhase| #[trigger] spec_lock_action(p) is Wait ==> p == LockPhase::Sleep,
{
}

} // verus!
