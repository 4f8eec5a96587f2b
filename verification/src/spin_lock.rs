//! A spin lock over a single flag.
use crate::word::{apply_flag_op, flag_op_effect, FlagOp, MemOrder};
use vstd::prelude::*;

verus! {

/// The instruction of one attempt to take the lock: swap in `true`.
pub fn lock_op() -> (r: FlagOp)
    ensures
        r == FlagOp::Swap(true, MemOrder::Acquire),
{
    FlagOp::Swap(true, MemOrder::Acquire)
}

/// Whether an attempt that found the flag at `previous` took the lock.
pub fn acquired(previous: bool) -> (r: bool)
    ensures
        r == !previous,
{
    !previous
}

/// The instruction that releases the lock: store `false`.
pub fn unlock_op() -> (r: FlagOp)
    ensures
        r == FlagOp::Store(false, MemOrder::Release),
{
    FlagOp::Store(false, MemOrder::Release)
}

/// A spin lock: its flag, and the data it guards while no guard holds it.
pub struct SpinLock<T> {
    data: Option<T>,
    locked: bool,
    id: Ghost<int>,
}

/// Exclusive access to the data of a `SpinLock`, from a lock to its unlock.
pub struct Guard<T> {
    data: T,
    lock_id: Ghost<int>,
}

impl<T> SpinLock<T> {
    /// Whether the lock is taken.
    pub closed spec fn locked(&self) -> bool {
        self.locked
    }

    /// The guarded data, absent while a guard holds it.
    pub closed spec fn data(&self) -> Option<T> {
        self.data
    }

    /// Which lock this is: the guards it hands out carry it, and only they
    /// unlock it.
    pub closed spec fn id(&self) -> int {
        self.id@
    }

    /// Whether the lock is taken.
    pub fn is_locked(&self) -> (r: bool)
        ensures
            r == self.locked(),
    {
        self.locked
    }

    /// The data is in the lock exactly when the lock is free.
    pub closed spec fn wf(&self) -> bool {
        self.locked == (self.data is None)
    }

    /// A free spin lock guarding `data`.
    pub fn new(data: T) -> (l: Self)
        ensures
            l.wf(),
            !l.locked(),
            l.data() == Some(data),
    {
        SpinLock { data: Some(data), locked: false, id: Ghost(vstd::pervasive::arbitrary()) }
    }

    /// One attempt to take the lock: swaps `true` into the flag and, when
    /// the flag was free, returns a guard holding the data.
    pub fn lock_step(&mut self) -> (r: Option<Guard<T>>)
        requires
            old(self).wf(),
        ensures
            final(self).wf(),
            final(self).locked(),
            final(self).id() == old(self).id(),
            r is Some == !old(self).locked(),
            r is Some ==> old(self).data() == Some(r->0.data()) && final(self).data() is None
                && r->0.lock_id() == old(self).id(),
            r is None ==> final(self).data() == old(self).data(),
    {
        let previous = apply_flag_op(&mut self.locked, lock_op());
        if acquired(previous) {
            match self.data.take() {
                Some(data) => Some(Guard { data, lock_id: Ghost(self.id@) }),
                None => vstd::pervasive::unreached(),
            }
        } else {
            None
        }
    }

    /// Takes a free lock: the first swap finds the flag clear. (A thread that
    /// locks a taken lock spins, repeating `lock_step`, until another thread
    /// unlocks it.)
    pub fn lock(&mut self) -> (g: Guard<T>)
        requires
            old(self).wf(),
            !old(self).locked(),
        ensures
            final(self).wf(),
            final(self).locked(),
            old(self).data() == Some(g.data()),
            g.lock_id() == old(self).id(),
            final(self).id() == old(self).id(),
            final(self).data() is None,
    {
        match self.lock_step() {
            Some(g) => g,
            None => vstd::pervasive::unreached(),
        }
    }

    /// Releases the lock held through `guard`: its data moves back into the
    /// lock and the flag is cleared.
    pub fn unlock(&mut self, guard: Guard<T>)
        requires
            old(self).wf(),
            old(self).locked(),
            guard.lock_id() == old(self).id(),
        ensures
            final(self).wf(),
            final(self).id() == old(self).id(),
            !final(self).locked(),
            final(self).data() == Some(guard.data()),
    {
        apply_flag_op(&mut self.locked, unlock_op());
        self.data = Some(guard.data);
    }
}

impl<T> Guard<T> {
    /// The guarded data.
    pub closed spec fn data(&self) -> T {
        self.data
    }

    /// The lock this guard holds.
    pub closed spec fn lock_id(&self) -> int {
        self.lock_id@
    }

    /// The guarded data.
    pub fn get(&self) -> (r: &T)
        ensures
            *r == self.data(),
    {
        &self.data
    }

    /// Replaces the guarded data.
    pub fn set(&mut self, data: T)
        ensures
            final(self).data() == data,
            final(self).lock_id() == old(self).lock_id(),
    {
        self.data = data;
    }
}

/// A flag `locked` and the threads of `holds`, each holding the lock or not:
/// at most one holds it, and the flag is set exactly when one does.
pub open spec fn spin_exclusive(locked: bool, holds: Seq<bool>) -> bool {
    &&& forall|i: int, j: int|
        0 <= i < holds.len() && 0 <= j < holds.len() && #[trigger] holds[i] && #[trigger] holds[j]
            ==> i == j
    &&& locked == (exists|i: int| 0 <= i < holds.len() && holds[i])
}

/// Law (mutual exclusion): an attempt by a thread that does not hold the lock
/// takes it exactly when no thread holds it, and keeps at most one holder.
pub proof fn lemma_lock_attempt_keeps_exclusion(locked: bool, holds: Seq<bool>, i: int)
    requires
        spin_exclusive(locked, holds),
        0 <= i < holds.len(),
        !holds[i],
    ensures
        ({
            let (l2, previous) = flag_op_effect(locked, FlagOp::Swap(true, MemOrder::Acquire));
            &&& l2
            &&& spin_exclusive(l2, holds.update(i, !previous))
            &&& !previous ==> forall|k: int| 0 <= k < holds.len() ==> !#[trigger] holds[k]
        }),
{
    let (l2, previous) = flag_op_effect(locked, FlagOp::Swap(true, MemOrder::Acquire));
    let h2 = holds.update(i, !previous);
    if previous {
        let h = choose|h: int| 0 <= h < holds.len() && holds[h];
        assert(h2[h]);
    } else {
        assert(h2[i]);
    }
}

/// Law: an unlock by the holder leaves the flag clear and no holder.
pub proof fn lemma_unlock_keeps_exclusion(locked: bool, holds: Seq<bool>, i: int)
    requires
        spin_exclusive(locked, holds),
        0 <= i < holds.len(),
        holds[i],
    ensures
        ({
            let (l2, _) = flag_op_effect(locked, FlagOp::Store(false, MemOrder::Release));
            spin_exclusive(l2, holds.update(i, false))
        }),
{
    let h2 = holds.update(i, false);
    assert forall|k: int| 0 <= k < h2.len() implies !#[trigger] h2[k] by {
        if k != i && holds[k] {
            assert(holds[i] && holds[k]);
        }
    }
}

} // verus!

verus! {

/// What one thread does next with the spin lock.
pub enum SpinEvent {
    /// One attempt to take the lock, by a thread that does not hold it.
    Attempt,
    /// Releases the lock it holds.
    Unlock,
}

/// The flag and which threads hold the lock after thread `tid` does `e`; an
/// event the thread cannot do where it stands changes nothing.
pub open spec fn spin_apply(locked: bool, holds: Seq<bool>, tid: int, e: SpinEvent) -> (
    bool,
    Seq<bool>,
) {
    if !(0 <= tid < holds.len()) {
        (locked, holds)
    } else {
        match e {
            SpinEvent::Attempt => if !holds[tid] {
                let (l2, previous) = flag_op_effect(locked, FlagOp::Swap(true, MemOrder::Acquire));
                (l2, holds.update(tid, !previous))
            } else {
                (locked, holds)
            },
            SpinEvent::Unlock => if holds[tid] {
                (flag_op_effect(locked, FlagOp::Store(false, MemOrder::Release)).0, holds.update(tid, false))
            } else {
                (locked, holds)
            },
        }
    }
}

/// The flag and which threads hold the lock after the events, in order.
pub open spec fn spin_run(locked: bool, holds: Seq<bool>, events: Seq<(int, SpinEvent)>) -> (
    bool,
    Seq<bool>,
)
    decreases events.len(),
{
    if events.len() == 0 {
        (locked, holds)
    } else {
        let (l1, h1) = spin_apply(locked, holds, events[0].0, events[0].1);
        spin_run(l1, h1, events.drop_first())
    }
}

proof fn lemma_spin_run_keeps_exclusion(locked: bool, holds: Seq<bool>, events: Seq<(int, SpinEvent)>)
    requires
        spin_exclusive(locked, holds),
    ensures
        spin_exclusive(spin_run(locked, holds, events).0, spin_run(locked, holds, events).1),
    decreases events.len(),
{
    if events.len() > 0 {
        let (tid, e) = events[0];
        if 0 <= tid < holds.len() {
            match e {
                SpinEvent::Attempt => if !holds[tid] {
                    lemma_lock_attempt_keeps_exclusion(locked, holds, tid);
                },
                SpinEvent::Unlock => if holds[tid] {
                    lemma_unlock_keeps_exclusion(locked, holds, tid);
                },
            }
        }
        let (l1, h1) = spin_apply(locked, holds, tid, e);
        lemma_spin_run_keeps_exclusion(l1, h1, events.drop_first());
    }
}

/// Law (mutual exclusion over whole runs): from a free spin lock and `n`
/// threads that do not hold it, after any events, at most one thread holds
/// the lock, and the flag is set exactly while one does.
pub proof fn lemma_spin_run_exclusive(n: nat, events: Seq<(int, SpinEvent)>)
    ensures
        ({
            let (l, h) = spin_run(false, Seq::new(n, |i: int| false), events);
            spin_exclusive(l, h)
        }),
{
    lemma_spin_run_keeps_exclusion(false, Seq::new(n, |i: int| false), events);
}

} // verus!

verus! {

/// A spin lock guarding a number that its holders increment: the flag,
/// which threads hold the lock, the number while it is in the lock, the
/// number in each thread's guard, and how many increments have been made.
pub struct CountingSpin {
    pub locked: bool,
    pub holds: Seq<bool>,
    pub data: Option<int>,
    pub guards: Seq<Option<int>>,
    pub increments: nat,
}

/// What one thread does next with a counting spin lock.
pub enum CountingSpinEvent {
    /// One attempt to take the lock; when it succeeds the number moves into
    /// the thread's guard.
    Attempt,
    /// Adds one to the number in its guard.
    Increment,
    /// Releases the lock; the number moves back into the lock.
    Unlock,
}

/// The system after thread `tid` does `e`; an event the thread cannot do
/// where it stands changes nothing.
pub open spec fn counting_spin_apply(sys: CountingSpin, tid: int, e: CountingSpinEvent) -> CountingSpin {
    if !(0 <= tid < sys.holds.len() && sys.guards.len() == sys.holds.len()) {
        sys
    } else {
        match e {
            CountingSpinEvent::Attempt => {
                let (l, h) = spin_apply(sys.locked, sys.holds, tid, SpinEvent::Attempt);
                if !sys.holds[tid] && h[tid] {
                    CountingSpin {
                        locked: l,
                        holds: h,
                        data: None,
                        guards: sys.guards.update(tid, sys.data),
                        ..sys
                    }
                } else {
                    CountingSpin { locked: l, holds: h, ..sys }
                }
            },
            CountingSpinEvent::Increment => match sys.guards[tid] {
                Some(v) => CountingSpin {
                    guards: sys.guards.update(tid, Some(v + 1)),
                    increments: sys.increments + 1,
                    ..sys
                },
                None => sys,
            },
            CountingSpinEvent::Unlock => if sys.holds[tid] {
                let (l, h) = spin_apply(sys.locked, sys.holds, tid, SpinEvent::Unlock);
                CountingSpin {
                    locked: l,
                    holds: h,
                    data: sys.guards[tid],
                    guards: sys.guards.update(tid, None),
                    ..sys
                }
            } else {
                sys
            },
        }
    }
}

/// The system after the events, in order.
pub open spec fn counting_spin_run(sys: CountingSpin, events: Seq<(int, CountingSpinEvent)>) -> CountingSpin
    decreases events.len(),
{
    if events.len() == 0 {
        sys
    } else {
        counting_spin_run(counting_spin_apply(sys, events[0].0, events[0].1), events.drop_first())
    }
}

/// The number is in exactly one place, the lock while nobody holds it or the
/// holder's guard, and it is the initial number plus every increment made.
pub open spec fn counting_spin_ok(sys: CountingSpin, init: int) -> bool {
    &&& spin_exclusive(sys.locked, sys.holds)
    &&& sys.guards.len() == sys.holds.len()
    &&& forall|i: int|
        0 <= i < sys.guards.len() ==> (#[trigger] sys.guards[i] is Some <==> sys.holds[i])
    &&& (sys.data is Some) == !sys.locked
    &&& sys.data is Some ==> sys.data == Some(init + sys.increments)
    &&& forall|i: int|
        0 <= i < sys.guards.len() && #[trigger] sys.guards[i] is Some ==> sys.guards[i] == Some(
            init + sys.increments,
        )
}

proof fn lemma_counting_spin_apply_keeps(sys: CountingSpin, init: int, tid: int, e: CountingSpinEvent)
    requires
        counting_spin_ok(sys, init),
    ensures
        counting_spin_ok(counting_spin_apply(sys, tid, e), init),
{
    if 0 <= tid < sys.holds.len() {
        let s2 = counting_spin_apply(sys, tid, e);
        match e {
            CountingSpinEvent::Attempt => {
                if !sys.holds[tid] {
                    lemma_lock_attempt_keeps_exclusion(sys.locked, sys.holds, tid);
                    if s2.holds[tid] {
                        assert(!sys.locked);
                    } else {
                        assert(sys.locked);
                    }
                }
                assert forall|i: int| 0 <= i < s2.guards.len() implies (#[trigger] s2.guards[i]
                    is Some <==> s2.holds[i]) by {
                    assert(sys.guards[i] is Some <==> sys.holds[i]);
                }
            },
            CountingSpinEvent::Increment => {
                assert forall|i: int|
                    0 <= i < s2.guards.len() && #[trigger] s2.guards[i] is Some implies s2.guards[i]
                        == Some(init + s2.increments) by {
                    if sys.guards[tid] is Some && i != tid {
                        assert(sys.holds[tid] && sys.holds[i]);
                    }
                }
                if sys.guards[tid] is Some {
                    assert(sys.holds[tid]);
                }
            },
            CountingSpinEvent::Unlock => {
                if sys.holds[tid] {
                    lemma_unlock_keeps_exclusion(sys.locked, sys.holds, tid);
                    assert forall|i: int| 0 <= i < s2.guards.len() implies (
                    #[trigger] s2.guards[i] is Some <==> s2.holds[i]) by {
                        assert(sys.guards[i] is Some <==> sys.holds[i]);
                    }
                }
            },
        }
    }
}

proof fn lemma_counting_spin_run_keeps(
    sys: CountingSpin,
    init: int,
    events: Seq<(int, CountingSpinEvent)>,
)
    requires
        counting_spin_ok(sys, init),
    ensures
        counting_spin_ok(counting_spin_run(sys, events), init),
    decreases events.len(),
{
    if events.len() > 0 {
        lemma_counting_spin_apply_keeps(sys, init, events[0].0, events[0].1);
        lemma_counting_spin_run_keeps(
            counting_spin_apply(sys, events[0].0, events[0].1),
            init,
            events.drop_first(),
        );
    }
}

/// Law (no update made under the lock is lost): from a free spin lock
/// holding `init` and `n` threads that do not hold it, after any events,
/// once the flag is clear the lock holds `init` plus the number of
/// increments made; while a thread holds it, that thread's guard holds that
/// number.
pub proof fn lemma_counting_spin_run_adds_up(n: nat, init: int, events: Seq<(int, CountingSpinEvent)>)
    ensures
        ({
            let s = counting_spin_run(
                CountingSpin {
                    locked: false,
                    holds: Seq::new(n, |i: int| false),
                    data: Some(init),
                    guards: Seq::new(n, |i: int| None::<int>),
                    increments: 0,
                },
                events,
            );
            &&& !s.locked ==> s.data == Some(init + s.increments)
            &&& forall|i: int|
                0 <= i < s.guards.len() && #[trigger] s.holds[i] ==> s.guards[i] == Some(
                    init + s.increments,
                )
        }),
{
    let s0 = CountingSpin {
        locked: false,
        holds: Seq::new(n, |i: int| false),
        data: Some(init),
        guards: Seq::new(n, |i: int| None::<int>),
        increments: 0,
    };
    assert(counting_spin_ok(s0, init));
    lemma_counting_spin_run_keeps(s0, init, events);
    let s = counting_spin_run(s0, events);
    assert forall|i: int| 0 <= i < s.guards.len() && #[trigger] s.holds[i] implies s.guards[i]
        == Some(init + s.increments) by {
        assert(s.guards[i] is Some);
    }
}

} // verus!

verus! {

/// Law (progress without interference): when the holder `h` unlocks, the
/// next attempt by any other thread `w` takes the lock.
pub proof fn lemma_attempt_after_unlock_takes_lock(locked: bool, holds: Seq<bool>, h: int, w: int)
    requires
        spin_exclusive(locked, holds),
        0 <= h < holds.len(),
        0 <= w < holds.len(),
        holds[h],
        w != h,
    ensures
        spin_run(locked, holds, seq![(h, SpinEvent::Unlock), (w, SpinEvent::Attempt)]).1[w],
{
    let events = seq![(h, SpinEvent::Unlock), (w, SpinEvent::Attempt)];
    let (l1, h1) = spin_apply(locked, holds, h, SpinEvent::Unlock);
    let (l2, h2) = spin_apply(l1, h1, w, SpinEvent::Attempt);
    assert(!holds[w]) by {
        assert(holds[h] && holds[w] ==> h == w);
    }
    assert(events.drop_first() =~= seq![(w, SpinEvent::Attempt)]);
    assert(events.drop_first().drop_first() =~= Seq::<(int, SpinEvent)>::empty());
    assert(spin_run(l2, h2, events.drop_first().drop_first()) == (l2, h2));
    assert(spin_run(l1, h1, events.drop_first()) == spin_run(l2, h2, events.drop_first().drop_first()));
}

} // verus!
