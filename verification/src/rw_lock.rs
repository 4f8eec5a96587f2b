//! A reader-writer lock that keeps waiting writers from starving.
//!
//! The state word holds twice the number of readers, plus one while a writer
//! waits (so that it is odd and turns new readers away), or `WRITE_LOCKED`
//! while a writer holds the lock. Writers sleep on a second word, a counter
//! that every release which may let a writer in increments. A writer sleeps
//! only while the word keeps readers out, so that a release that lets it in
//! bumps the counter it sleeps on.
use crate::word::{apply_word_op, word_op_effect, MemOrder, WordOp};
use vstd::prelude::*;

verus! {

/// The state word while a writer holds the lock.
pub const WRITE_LOCKED: u32 = 0xFFFF_FFFF;

/// Where a thread stands inside `RwLock::write`.
#[derive(Clone, Copy, Debug, PartialEq, Eq, Structural)]
pub enum WritePhase {
    /// About to load the state word.
    Start,
    /// Saw no reader in the word `s`; about to swing it to `WRITE_LOCKED`.
    TryLock(u32),
    /// Saw readers and no waiting writer in the word `s`; about to mark it odd.
    Mark(u32),
    /// About to load the writer wake-up counter.
    ReadCounter,
    /// Loaded the counter `w`; about to load the state word again. It sleeps
    /// only when the word still keeps readers out: odd and at least 3 (marked
    /// with readers left, or write-locked). Otherwise it decides afresh: it
    /// takes a word without readers and marks again an even word, whose mark
    /// a release has cleared.
    Recheck(u32),
    /// About to sleep while the counter is `w`.
    Sleep(u32),
    /// Holds the lock.
    Held,
}

/// Where a thread stands inside `RwLock::read`.
#[derive(Clone, Copy, Debug, PartialEq, Eq, Structural)]
pub enum ReadPhase {
    /// About to load the state word (acquire).
    Start,
    /// Woke up; about to load the state word again (relaxed).
    Reload,
    /// Saw the even word `s`; about to add one reader to it.
    TryRead(u32),
    /// Saw the odd word `s`; about to sleep while the word is `s`.
    Sleep(u32),
    /// Holds a read lock.
    Held,
}

/// What a writer does next.
#[derive(Clone, Copy, Debug, PartialEq, Eq, Structural)]
pub enum WriteAction {
    /// Issue this instruction on the state word and advance on its result.
    State(WordOp),
    /// Issue this instruction on the wake-up counter and advance on its result.
    Counter(WordOp),
    /// Sleep until woken or until the counter no longer holds this value.
    WaitCounter(u32),
    Finished,
}

/// What a reader does next.
#[derive(Clone, Copy, Debug, PartialEq, Eq, Structural)]
pub enum ReadAction {
    /// Issue this instruction on the state word and advance on its result.
    State(WordOp),
    /// Sleep until woken or until the state word no longer holds this value.
    WaitState(u32),
    Finished,
}

/// Where a writer goes on after seeing the state word `s`: it takes the lock
/// when no reader holds it, marks the word when readers hold it and no writer
/// waits yet, and otherwise gets ready to sleep.
pub open spec fn spec_write_decide(s: u32) -> WritePhase {
    if s <= 1 {
        WritePhase::TryLock(s)
    } else if s % 2 == 0 {
        WritePhase::Mark(s)
    } else {
        WritePhase::ReadCounter
    }
}

pub open spec fn spec_write_action(phase: WritePhase) -> WriteAction {
    match phase {
        WritePhase::Start => WriteAction::State(WordOp::Load(MemOrder::Relaxed)),
        WritePhase::TryLock(s) => WriteAction::State(
            WordOp::CompareExchange(s, WRITE_LOCKED, MemOrder::Acquire, MemOrder::Relaxed),
        ),
        WritePhase::Mark(s) => WriteAction::State(
            WordOp::CompareExchange(s, (s + 1) as u32, MemOrder::Relaxed, MemOrder::Relaxed),
        ),
        WritePhase::ReadCounter => WriteAction::Counter(WordOp::Load(MemOrder::Acquire)),
        WritePhase::Recheck(_) => WriteAction::State(WordOp::Load(MemOrder::Relaxed)),
        WritePhase::Sleep(w) => WriteAction::WaitCounter(w),
        WritePhase::Held => WriteAction::Finished,
    }
}

pub open spec fn spec_write_advance(phase: WritePhase, observed: u32) -> WritePhase {
    match phase {
        WritePhase::Start => spec_write_decide(observed),
        WritePhase::TryLock(s) => if observed == s {
            WritePhase::Held
        } else {
            spec_write_decide(observed)
        },
        WritePhase::Mark(s) => if observed == s {
            WritePhase::ReadCounter
        } else {
            spec_write_decide(observed)
        },
        WritePhase::ReadCounter => WritePhase::Recheck(observed),
        WritePhase::Recheck(w) => if observed >= 3 && observed % 2 == 1 {
            WritePhase::Sleep(w)
        } else {
            spec_write_decide(observed)
        },
        WritePhase::Sleep(_) => WritePhase::Start,
        WritePhase::Held => WritePhase::Held,
    }
}

pub open spec fn spec_read_decide(s: u32) -> ReadPhase {
    if s % 2 == 0 {
        ReadPhase::TryRead(s)
    } else {
        ReadPhase::Sleep(s)
    }
}

pub open spec fn spec_read_action(phase: ReadPhase) -> ReadAction {
    match phase {
        ReadPhase::Start => ReadAction::State(WordOp::Load(MemOrder::Acquire)),
        ReadPhase::Reload => ReadAction::State(WordOp::Load(MemOrder::Relaxed)),
        ReadPhase::TryRead(s) => ReadAction::State(
            WordOp::CompareExchange(s, (s + 2) as u32, MemOrder::Acquire, MemOrder::Relaxed),
        ),
        ReadPhase::Sleep(s) => ReadAction::WaitState(s),
        ReadPhase::Held => ReadAction::Finished,
    }
}

pub open spec fn spec_read_advance(phase: ReadPhase, observed: u32) -> ReadPhase {
    match phase {
        ReadPhase::Start => spec_read_decide(observed),
        ReadPhase::Reload => spec_read_decide(observed),
        ReadPhase::TryRead(s) => if observed == s {
            ReadPhase::Held
        } else {
            spec_read_decide(observed)
        },
        ReadPhase::Sleep(_) => ReadPhase::Reload,
        ReadPhase::Held => ReadPhase::Held,
    }
}

/// Where a writer goes on after seeing the state word `s`.
pub fn write_decide(s: u32) -> (r: WritePhase)
    ensures
        r == spec_write_decide(s),
{
    if s <= 1 {
        WritePhase::TryLock(s)
    } else if s % 2 == 0 {
        WritePhase::Mark(s)
    } else {
        WritePhase::ReadCounter
    }
}

/// The action a writer at `phase` takes next. (A writer marks only an even
/// word, which is below `WRITE_LOCKED`.)
pub fn write_action(phase: WritePhase) -> (r: WriteAction)
    requires
        phase matches WritePhase::Mark(s) ==> s < WRITE_LOCKED,
    ensures
        r == spec_write_action(phase),
{
    match phase {
        WritePhase::Start => WriteAction::State(WordOp::Load(MemOrder::Relaxed)),
        WritePhase::TryLock(s) => WriteAction::State(
            WordOp::CompareExchange(s, WRITE_LOCKED, MemOrder::Acquire, MemOrder::Relaxed),
        ),
        WritePhase::Mark(s) => WriteAction::State(
            WordOp::CompareExchange(s, s + 1, MemOrder::Relaxed, MemOrder::Relaxed),
        ),
        WritePhase::ReadCounter => WriteAction::Counter(WordOp::Load(MemOrder::Acquire)),
        WritePhase::Recheck(_) => WriteAction::State(WordOp::Load(MemOrder::Relaxed)),
        WritePhase::Sleep(w) => WriteAction::WaitCounter(w),
        WritePhase::Held => WriteAction::Finished,
    }
}

/// The phase that follows `phase` once its action returned `observed`.
pub fn write_advance(phase: WritePhase, observed: u32) -> (r: WritePhase)
    ensures
        r == spec_write_advance(phase, observed),
{
    match phase {
        WritePhase::Start => write_decide(observed),
        WritePhase::TryLock(s) => if observed == s {
            WritePhase::Held
        } else {
            write_decide(observed)
        },
        WritePhase::Mark(s) => if observed == s {
            WritePhase::ReadCounter
        } else {
            write_decide(observed)
        },
        WritePhase::ReadCounter => WritePhase::Recheck(observed),
        WritePhase::Recheck(w) => if observed >= 3 && observed % 2 == 1 {
            WritePhase::Sleep(w)
        } else {
            write_decide(observed)
        },
        WritePhase::Sleep(_) => WritePhase::Start,
        WritePhase::Held => WritePhase::Held,
    }
}

/// Where a reader goes on after seeing the state word `s`: it tries to join
/// when the word is even, and sleeps while the word is odd (write-locked, or
/// a writer waits).
pub fn read_decide(s: u32) -> (r: ReadPhase)
    ensures
        r == spec_read_decide(s),
{
    if s % 2 == 0 {
        ReadPhase::TryRead(s)
    } else {
        ReadPhase::Sleep(s)
    }
}

/// The action a reader at `phase` takes next. Adding a reader to the word
/// `u32::MAX - 1` would overflow the word, and is left out.
pub fn read_action(phase: ReadPhase) -> (r: ReadAction)
    requires
        phase matches ReadPhase::TryRead(s) ==> s < u32::MAX - 1,
    ensures
        r == spec_read_action(phase),
{
    match phase {
        ReadPhase::Start => ReadAction::State(WordOp::Load(MemOrder::Acquire)),
        ReadPhase::Reload => ReadAction::State(WordOp::Load(MemOrder::Relaxed)),
        ReadPhase::TryRead(s) => ReadAction::State(
            WordOp::CompareExchange(s, s + 2, MemOrder::Acquire, MemOrder::Relaxed),
        ),
        ReadPhase::Sleep(s) => ReadAction::WaitState(s),
        ReadPhase::Held => ReadAction::Finished,
    }
}

/// The phase that follows `phase` once its action returned `observed`.
pub fn read_advance(phase: ReadPhase, observed: u32) -> (r: ReadPhase)
    ensures
        r == spec_read_advance(phase, observed),
{
    match phase {
        ReadPhase::Start => read_decide(observed),
        ReadPhase::Reload => read_decide(observed),
        ReadPhase::TryRead(s) => if observed == s {
            ReadPhase::Held
        } else {
            read_decide(observed)
        },
        ReadPhase::Sleep(_) => ReadPhase::Reload,
        ReadPhase::Held => ReadPhase::Held,
    }
}

/// The word values a writer's phase carries are those it was put in for:
/// it tries to lock only a word without readers, and marks only an even word
/// with readers and room for the mark.
pub open spec fn write_phase_ok(phase: WritePhase) -> bool {
    match phase {
        WritePhase::TryLock(s) => s <= 1,
        WritePhase::Mark(s) => 2 <= s && s % 2 == 0 && s < WRITE_LOCKED - 1,
        _ => true,
    }
}

/// A reader tries to join only an even word with room for one more reader.
pub open spec fn read_phase_ok(phase: ReadPhase) -> bool {
    match phase {
        ReadPhase::TryRead(s) => s % 2 == 0 && s < u32::MAX - 1,
        _ => true,
    }
}

/// The state word after the writer at `phase` takes its next action on the
/// words `state` and `counter`, and the writer's next phase. A writer never
/// changes the counter while it locks. A wait advances on the value it
/// waited on, as the driver of `write` does; a writer that has finished
/// stays where it is.
pub open spec fn write_transition(state: u32, counter: u32, phase: WritePhase) -> (u32, WritePhase) {
    match spec_write_action(phase) {
        WriteAction::State(op) => {
            let (s, observed) = word_op_effect(state, op);
            (s, spec_write_advance(phase, observed))
        },
        WriteAction::Counter(op) => (state, spec_write_advance(phase, word_op_effect(counter, op).1)),
        WriteAction::WaitCounter(w) => (state, spec_write_advance(phase, w)),
        WriteAction::Finished => (state, phase),
    }
}

/// The state word after the reader at `phase` takes its next action on it,
/// and the reader's next phase. A wait advances on the value it waited on,
/// as the driver of `read` does; a reader that has finished stays where it
/// is.
pub open spec fn read_transition(state: u32, phase: ReadPhase) -> (u32, ReadPhase) {
    match spec_read_action(phase) {
        ReadAction::State(op) => {
            let (s, observed) = word_op_effect(state, op);
            (s, spec_read_advance(phase, observed))
        },
        ReadAction::WaitState(v) => (state, spec_read_advance(phase, v)),
        ReadAction::Finished => (state, phase),
    }
}

/// The instructions that release a write lock: clear the state word, then
/// bump the writer wake-up counter (after which one writer and every
/// reader are woken).
pub fn write_unlock_ops() -> (r: (WordOp, WordOp))
    ensures
        r == (WordOp::Store(0, MemOrder::Release), WordOp::FetchAdd(1, MemOrder::Release)),
{
    (WordOp::Store(0, MemOrder::Release), WordOp::FetchAdd(1, MemOrder::Release))
}

/// The instruction that releases a read lock: take one reader off the word.
pub fn read_unlock_op() -> (r: WordOp)
    ensures
        r == WordOp::FetchSub(2, MemOrder::Release),
{
    WordOp::FetchSub(2, MemOrder::Release)
}

/// Whether the reader whose release found the word at `previous` was the last
/// one while a writer waits, and must bump the counter and wake a writer.
pub fn read_unlock_wakes_writer(previous: u32) -> (r: bool)
    ensures
        r == (previous == 3),
{
    previous == 3
}

/// The instruction with which the last reader to leave a marked word bumps
/// the writer wake-up counter.
pub fn read_unlock_wake_op() -> (r: WordOp)
    ensures
        r == WordOp::FetchAdd(1, MemOrder::Release),
{
    WordOp::FetchAdd(1, MemOrder::Release)
}

/// A reader-writer lock: its state word, its writer wake-up counter, and the
/// value it guards while no writer holds it.
pub struct RwLock<T> {
    state: u32,
    writer_wake_counter: u32,
    value: Option<T>,
    id: Ghost<int>,
}

/// Exclusive access to the value of an `RwLock`, from a write lock to its
/// unlock.
pub struct WriteGuard<T> {
    value: T,
    lock_id: Ghost<int>,
}

/// Shared access to the value of an `RwLock`, from a read lock to its unlock.
pub struct ReadGuard {
    lock_id: Ghost<int>,
}

impl<T> RwLock<T> {
    /// The state word.
    pub closed spec fn state(&self) -> u32 {
        self.state
    }

    /// The writer wake-up counter.
    pub closed spec fn writer_wake_counter(&self) -> u32 {
        self.writer_wake_counter
    }

    /// The guarded value, absent while a writer holds it.
    pub closed spec fn value(&self) -> Option<T> {
        self.value
    }

    /// Which lock this is: the guards it hands out carry it, and only they
    /// unlock it.
    pub closed spec fn id(&self) -> int {
        self.id@
    }

    /// The state word.
    pub fn state_word(&self) -> (r: u32)
        ensures
            r == self.state(),
    {
        self.state
    }

    /// The writer wake-up counter.
    pub fn wake_counter_word(&self) -> (r: u32)
        ensures
            r == self.writer_wake_counter(),
    {
        self.writer_wake_counter
    }

    /// The value is in the lock exactly when no writer holds it.
    pub closed spec fn wf(&self) -> bool {
        (self.state == WRITE_LOCKED) == (self.value is None)
    }

    /// A lock that nobody holds, guarding `value`.
    pub fn new(value: T) -> (l: Self)
        ensures
            l.wf(),
            l.state() == 0,
            l.writer_wake_counter() == 0,
            l.value() == Some(value),
    {
        RwLock {
            state: 0,
            writer_wake_counter: 0,
            value: Some(value),
            id: Ghost(vstd::pervasive::arbitrary()),
        }
    }

    /// Takes the next action of a writer at `phase`. When the writer takes
    /// the lock, the value moves into the guard returned.
    pub fn write_step(&mut self, phase: WritePhase) -> (r: Result<WriteGuard<T>, WritePhase>)
        requires
            old(self).wf(),
            phase != WritePhase::Held,
            write_phase_ok(phase),
        ensures
            final(self).wf(),
            final(self).id() == old(self).id(),
            final(self).writer_wake_counter() == old(self).writer_wake_counter(),
            final(self).state() == write_transition(
                old(self).state(),
                old(self).writer_wake_counter(),
                phase,
            ).0,
            write_transition(old(self).state(), old(self).writer_wake_counter(), phase).1
                == WritePhase::Held ==> {
                &&& r is Ok
                &&& old(self).value() == Some(r->Ok_0.value())
                &&& r->Ok_0.lock_id() == old(self).id()
                &&& final(self).value() is None
            },
            write_transition(old(self).state(), old(self).writer_wake_counter(), phase).1
                != WritePhase::Held ==> {
                &&& r == Err::<WriteGuard<T>, WritePhase>(
                    write_transition(old(self).state(), old(self).writer_wake_counter(), phase).1,
                )
                &&& final(self).value() == old(self).value()
            },
    {
        let next = match write_action(phase) {
            WriteAction::State(op) => {
                let observed = apply_word_op(&mut self.state, op);
                write_advance(phase, observed)
            },
            WriteAction::Counter(op) => {
                let observed = apply_word_op(&mut self.writer_wake_counter, op);
                write_advance(phase, observed)
            },
            WriteAction::WaitCounter(w) => write_advance(phase, w),
            WriteAction::Finished => phase,
        };
        match next {
            WritePhase::Held => match self.value.take() {
                Some(value) => Ok(WriteGuard { value, lock_id: Ghost(self.id@) }),
                None => vstd::pervasive::unreached(),
            },
            _ => Err(next),
        }
    }

    /// Write-locks a lock that no reader or writer holds: the writer loads
    /// the word and takes the lock at its first attempt. (A writer facing
    /// readers marks the word and sleeps until the last of them leaves; see
    /// `write_step`.)
    pub fn write(&mut self) -> (g: WriteGuard<T>)
        requires
            old(self).wf(),
            old(self).state() <= 1,
        ensures
            final(self).wf(),
            final(self).state() == WRITE_LOCKED,
            final(self).writer_wake_counter() == old(self).writer_wake_counter(),
            final(self).id() == old(self).id(),
            g.lock_id() == old(self).id(),
            old(self).value() == Some(g.value()),
            final(self).value() is None,
    {
        let next = match self.write_step(WritePhase::Start) {
            Ok(g) => return g,
            Err(next) => next,
        };
        match self.write_step(next) {
            Ok(g) => g,
            Err(_) => vstd::pervasive::unreached(),
        }
    }

    /// Releases the write lock held through `guard`: the value moves back,
    /// the word is cleared and the counter bumped.
    pub fn write_unlock(&mut self, guard: WriteGuard<T>)
        requires
            old(self).wf(),
            old(self).state() == WRITE_LOCKED,
            guard.lock_id() == old(self).id(),
        ensures
            final(self).wf(),
            final(self).id() == old(self).id(),
            final(self).state() == 0,
            final(self).writer_wake_counter() == word_op_effect(
                old(self).writer_wake_counter(),
                WordOp::FetchAdd(1, MemOrder::Release),
            ).0,
            final(self).value() == Some(guard.value()),
    {
        let (state_op, counter_op) = write_unlock_ops();
        apply_word_op(&mut self.state, state_op);
        apply_word_op(&mut self.writer_wake_counter, counter_op);
        self.value = Some(guard.value);
    }

    /// Takes the next action of a reader at `phase`; returns a guard when the
    /// reader joins.
    pub fn read_step(&mut self, phase: ReadPhase) -> (r: Result<ReadGuard, ReadPhase>)
        requires
            old(self).wf(),
            phase != ReadPhase::Held,
            read_phase_ok(phase),
        ensures
            final(self).wf(),
            final(self).writer_wake_counter() == old(self).writer_wake_counter(),
            final(self).value() == old(self).value(),
            final(self).id() == old(self).id(),
            final(self).state() == read_transition(old(self).state(), phase).0,
            read_transition(old(self).state(), phase).1 == ReadPhase::Held ==> {
                &&& r is Ok
                &&& r->Ok_0.lock_id() == old(self).id()
            },
            read_transition(old(self).state(), phase).1 != ReadPhase::Held ==> r == Err::<
                ReadGuard,
                ReadPhase,
            >(read_transition(old(self).state(), phase).1),
    {
        let next = match read_action(phase) {
            ReadAction::State(op) => {
                let observed = apply_word_op(&mut self.state, op);
                read_advance(phase, observed)
            },
            ReadAction::WaitState(v) => read_advance(phase, v),
            ReadAction::Finished => phase,
        };
        match next {
            ReadPhase::Held => Ok(ReadGuard { lock_id: Ghost(self.id@) }),
            _ => Err(next),
        }
    }

    /// Read-locks a lock whose word is even (no writer holds it or waits for
    /// it): the reader loads the word and joins at its first attempt. (A
    /// reader facing an odd word sleeps until it changes; see `read_step`.)
    pub fn read(&mut self) -> (g: ReadGuard)
        requires
            old(self).wf(),
            old(self).state() % 2 == 0,
            old(self).state() < u32::MAX - 1,
        ensures
            final(self).wf(),
            final(self).state() == old(self).state() + 2,
            final(self).writer_wake_counter() == old(self).writer_wake_counter(),
            final(self).value() == old(self).value(),
            final(self).id() == old(self).id(),
            g.lock_id() == old(self).id(),
    {
        let next = match self.read_step(ReadPhase::Start) {
            Ok(g) => return g,
            Err(next) => next,
        };
        match self.read_step(next) {
            Ok(g) => g,
            Err(_) => vstd::pervasive::unreached(),
        }
    }

    /// The value, which readers share.
    pub fn read_value(&self, guard: &ReadGuard) -> (r: &T)
        requires
            self.wf(),
            self.state() != WRITE_LOCKED,
            guard.lock_id() == self.id(),
        ensures
            self.value() == Some(*r),
    {
        match &self.value {
            Some(v) => v,
            None => vstd::pervasive::unreached(),
        }
    }

    /// Releases a read lock; returns whether this reader was the last one
    /// while a writer waits, in which case the counter has been bumped and a
    /// writer must be woken.
    pub fn read_unlock(&mut self, guard: ReadGuard) -> (wake: bool)
        requires
            old(self).wf(),
            2 <= old(self).state() < WRITE_LOCKED,
            guard.lock_id() == old(self).id(),
        ensures
            final(self).wf(),
            final(self).id() == old(self).id(),
            final(self).state() == old(self).state() - 2,
            final(self).value() == old(self).value(),
            wake == (old(self).state() == 3),
            final(self).writer_wake_counter() == if wake {
                word_op_effect(
                    old(self).writer_wake_counter(),
                    WordOp::FetchAdd(1, MemOrder::Release),
                ).0
            } else {
                old(self).writer_wake_counter()
            },
    {
        let previous = apply_word_op(&mut self.state, read_unlock_op());
        let wake = read_unlock_wakes_writer(previous);
        if wake {
            apply_word_op(&mut self.writer_wake_counter, read_unlock_wake_op());
        }
        wake
    }
}

impl<T> WriteGuard<T> {
    /// The guarded value.
    pub closed spec fn value(&self) -> T {
        self.value
    }

    /// The lock this guard holds.
    pub closed spec fn lock_id(&self) -> int {
        self.lock_id@
    }

    /// The guarded value.
    pub fn get(&self) -> (r: &T)
        ensures
            *r == self.value(),
    {
        &self.value
    }

    /// Replaces the guarded value.
    pub fn set(&mut self, value: T)
        ensures
            final(self).value() == value,
            final(self).lock_id() == old(self).lock_id(),
    {
        self.value = value;
    }
}

impl ReadGuard {
    /// The lock this guard holds.
    pub closed spec fn lock_id(&self) -> int {
        self.lock_id@
    }
}

} // verus!

verus! {

/// Where a thread stands with respect to one reader-writer lock.
#[derive(Clone, Copy, Debug, PartialEq, Eq, Structural)]
pub enum RwThread {
    /// Neither holds the lock nor is trying to take it.
    Outside,
    /// Inside `write`, or holding the write lock.
    Writing(WritePhase),
    /// Inside `read`, or holding a read lock.
    Reading(ReadPhase),
}

pub open spec fn is_reader(t: RwThread) -> bool {
    t == RwThread::Reading(ReadPhase::Held)
}

pub open spec fn is_writer(t: RwThread) -> bool {
    t == RwThread::Writing(WritePhase::Held)
}

/// The number of threads that hold a read lock.
pub open spec fn reader_count(threads: Seq<RwThread>) -> nat
    decreases threads.len(),
{
    if threads.len() == 0 {
        0
    } else {
        reader_count(threads.drop_last()) + if is_reader(threads.last()) {
            1nat
        } else {
            0nat
        }
    }
}

pub open spec fn rw_thread_ok(t: RwThread) -> bool {
    match t {
        RwThread::Writing(p) => write_phase_ok(p),
        RwThread::Reading(p) => read_phase_ok(p),
        RwThread::Outside => true,
    }
}

/// A state word `state` and the threads at `threads` (fewer than could
/// overflow the reader count): at most one writer holds the lock; the word
/// is `WRITE_LOCKED` exactly when one does, and then no reader holds it;
/// otherwise the word is twice the number of readers, plus one when a
/// writer has marked it; and every phase carries a word it was put in for.
pub open spec fn rw_exclusive(state: u32, threads: Seq<RwThread>) -> bool {
    &&& threads.len() < 0x7FFF_FFFF
    &&& forall|i: int, j: int|
        0 <= i < threads.len() && 0 <= j < threads.len() && is_writer(#[trigger] threads[i])
            && is_writer(#[trigger] threads[j]) ==> i == j
    &&& (state == WRITE_LOCKED) == (exists|i: int| 0 <= i < threads.len() && is_writer(threads[i]))
    &&& state == WRITE_LOCKED ==> reader_count(threads) == 0
    &&& state != WRITE_LOCKED ==> state / 2 == reader_count(threads)
    &&& forall|i: int| 0 <= i < threads.len() ==> rw_thread_ok(#[trigger] threads[i])
}

proof fn lemma_reader_count_bound(threads: Seq<RwThread>)
    ensures
        reader_count(threads) <= threads.len(),
    decreases threads.len(),
{
    if threads.len() > 0 {
        lemma_reader_count_bound(threads.drop_last());
    }
}

proof fn lemma_reader_count_update(threads: Seq<RwThread>, i: int, x: RwThread)
    requires
        0 <= i < threads.len(),
    ensures
        reader_count(threads.update(i, x)) + (if is_reader(threads[i]) {
            1nat
        } else {
            0nat
        }) == reader_count(threads) + (if is_reader(x) {
            1nat
        } else {
            0nat
        }),
    decreases threads.len(),
{
    let t2 = threads.update(i, x);
    if i == threads.len() - 1 {
        assert(t2.drop_last() =~= threads.drop_last());
    } else {
        assert(t2.drop_last() =~= threads.drop_last().update(i, x));
        lemma_reader_count_update(threads.drop_last(), i, x);
    }
}

proof fn lemma_reader_count_zero(threads: Seq<RwThread>)
    ensures
        (reader_count(threads) == 0) == (forall|k: int|
            0 <= k < threads.len() ==> !is_reader(#[trigger] threads[k])),
    decreases threads.len(),
{
    if threads.len() > 0 {
        let d = threads.drop_last();
        lemma_reader_count_zero(d);
        if reader_count(threads) == 0 {
            assert forall|k: int| 0 <= k < threads.len() implies !is_reader(
                #[trigger] threads[k],
            ) by {
                if k < threads.len() - 1 {
                    assert(d[k] == threads[k]);
                }
            }
        } else if is_reader(threads.last()) {
            assert(is_reader(threads[threads.len() - 1]));
        } else {
            let k = choose|k: int| 0 <= k < d.len() && is_reader(d[k]);
            assert(threads[k] == d[k]);
        }
    }
}

/// Law (exclusion): while a writer holds the lock, no reader does.
pub proof fn lemma_writer_excludes_readers(state: u32, threads: Seq<RwThread>, w: int, r: int)
    requires
        rw_exclusive(state, threads),
        0 <= w < threads.len(),
        0 <= r < threads.len(),
        is_writer(threads[w]),
    ensures
        !is_reader(threads[r]),
{
    lemma_reader_count_zero(threads);
}

/// Law: a thread that starts to lock, for writing or for reading, keeps the
/// system exclusive.
pub proof fn lemma_enter_keeps_exclusion(
    state: u32,
    threads: Seq<RwThread>,
    i: int,
    entering: RwThread,
)
    requires
        rw_exclusive(state, threads),
        0 <= i < threads.len(),
        threads[i] == RwThread::Outside,
        entering == RwThread::Writing(WritePhase::Start) || entering == RwThread::Reading(
            ReadPhase::Start,
        ),
    ensures
        rw_exclusive(state, threads.update(i, entering)),
{
    let t2 = threads.update(i, entering);
    lemma_reader_count_update(threads, i, entering);
    assert forall|k: int| 0 <= k < t2.len() implies rw_thread_ok(#[trigger] t2[k]) by {
        assert(rw_thread_ok(threads[k]));
    }
    assert forall|a: int, b: int|
        0 <= a < t2.len() && 0 <= b < t2.len() && is_writer(#[trigger] t2[a]) && is_writer(
            #[trigger] t2[b],
        ) implies a == b by {
        assert(threads[a] == t2[a] && threads[b] == t2[b]);
    }
    if state == WRITE_LOCKED {
        let h = choose|h: int| 0 <= h < threads.len() && is_writer(threads[h]);
        assert(t2[h] == threads[h]);
    } else {
        assert forall|k: int| 0 <= k < t2.len() implies !is_writer(#[trigger] t2[k]) by {
            if k != i {
                assert(t2[k] == threads[k]);
            }
        }
    }
}

/// Law (exclusion): an action of any writer inside `write` keeps at most one
/// writer, no reader beside it, and the word counting the readers.
pub proof fn lemma_write_step_keeps_exclusion(
    state: u32,
    counter: u32,
    threads: Seq<RwThread>,
    i: int,
    phase: WritePhase,
)
    requires
        rw_exclusive(state, threads),
        0 <= i < threads.len(),
        threads[i] == RwThread::Writing(phase),
        phase != WritePhase::Held,
    ensures
        ({
            let (s2, p2) = write_transition(state, counter, phase);
            rw_exclusive(s2, threads.update(i, RwThread::Writing(p2)))
        }),
{
    let (s2, p2) = write_transition(state, counter, phase);
    let t2 = threads.update(i, RwThread::Writing(p2));
    lemma_reader_count_update(threads, i, RwThread::Writing(p2));
    lemma_reader_count_bound(threads);
    lemma_reader_count_zero(threads);
    assert(!is_reader(threads[i]));
    assert(rw_thread_ok(threads[i]));
    // No writer holds the lock unless the word says so.
    if state != WRITE_LOCKED {
        assert forall|k: int| 0 <= k < threads.len() implies !is_writer(#[trigger] threads[k]) by {}
    }
    assert(rw_thread_ok(t2[i]));
    assert forall|k: int| 0 <= k < t2.len() implies rw_thread_ok(#[trigger] t2[k]) by {
        assert(rw_thread_ok(threads[k]));
    }
    if p2 == WritePhase::Held {
        assert(state <= 1);
        assert forall|a: int, b: int|
            0 <= a < t2.len() && 0 <= b < t2.len() && is_writer(#[trigger] t2[a]) && is_writer(
                #[trigger] t2[b],
            ) implies a == b by {
            if a != i {
                assert(is_writer(threads[a]));
            }
            if b != i {
                assert(is_writer(threads[b]));
            }
        }
        assert(is_writer(t2[i]));
    } else {
        assert forall|a: int, b: int|
            0 <= a < t2.len() && 0 <= b < t2.len() && is_writer(#[trigger] t2[a]) && is_writer(
                #[trigger] t2[b],
            ) implies a == b by {
            assert(threads[a] == t2[a] && threads[b] == t2[b]);
        }
        if state == WRITE_LOCKED {
            let h = choose|h: int| 0 <= h < threads.len() && is_writer(threads[h]);
            assert(t2[h] == threads[h]);
        } else {
            assert forall|k: int| 0 <= k < t2.len() implies !is_writer(#[trigger] t2[k]) by {
                if k != i {
                    assert(t2[k] == threads[k]);
                }
            }
        }
    }
}

/// Law (exclusion): an action of any reader inside `read` keeps the word
/// counting the readers and keeps readers away from a write-locked word.
pub proof fn lemma_read_step_keeps_exclusion(
    state: u32,
    threads: Seq<RwThread>,
    i: int,
    phase: ReadPhase,
)
    requires
        rw_exclusive(state, threads),
        0 <= i < threads.len(),
        threads[i] == RwThread::Reading(phase),
        phase != ReadPhase::Held,
    ensures
        ({
            let (s2, p2) = read_transition(state, phase);
            rw_exclusive(s2, threads.update(i, RwThread::Reading(p2)))
        }),
{
    let (s2, p2) = read_transition(state, phase);
    let t2 = threads.update(i, RwThread::Reading(p2));
    lemma_reader_count_update(threads, i, RwThread::Reading(p2));
    lemma_reader_count_bound(threads);
    assert(!is_reader(threads[i]));
    assert(rw_thread_ok(threads[i]));
    if state != WRITE_LOCKED {
        assert forall|k: int| 0 <= k < threads.len() implies !is_writer(#[trigger] threads[k]) by {}
    }
    assert(rw_thread_ok(t2[i]));
    assert forall|k: int| 0 <= k < t2.len() implies rw_thread_ok(#[trigger] t2[k]) by {
        assert(rw_thread_ok(threads[k]));
    }
    assert forall|a: int, b: int|
        0 <= a < t2.len() && 0 <= b < t2.len() && is_writer(#[trigger] t2[a]) && is_writer(
            #[trigger] t2[b],
        ) implies a == b by {
        assert(threads[a] == t2[a] && threads[b] == t2[b]);
    }
    if s2 == WRITE_LOCKED {
        let h = choose|h: int| 0 <= h < threads.len() && is_writer(threads[h]);
        assert(t2[h] == threads[h]);
    } else {
        assert forall|k: int| 0 <= k < t2.len() implies !is_writer(#[trigger] t2[k]) by {
            if k != i {
                assert(t2[k] == threads[k]);
            }
        }
    }
}

/// Law: releasing the write lock leaves the word clear and no holder.
pub proof fn lemma_write_unlock_keeps_exclusion(state: u32, threads: Seq<RwThread>, i: int)
    requires
        rw_exclusive(state, threads),
        0 <= i < threads.len(),
        is_writer(threads[i]),
    ensures
        state == WRITE_LOCKED,
        rw_exclusive(0, threads.update(i, RwThread::Outside)),
{
    let t2 = threads.update(i, RwThread::Outside);
    lemma_reader_count_update(threads, i, RwThread::Outside);
    assert forall|k: int| 0 <= k < t2.len() implies rw_thread_ok(#[trigger] t2[k]) by {
        assert(rw_thread_ok(threads[k]));
    }
    assert forall|k: int| 0 <= k < t2.len() implies !is_writer(#[trigger] t2[k]) by {
        if k != i && is_writer(threads[k]) {
            assert(is_writer(threads[i]));
        }
    }
}

/// Law: releasing a read lock takes one reader off the word, which cannot
/// wrap around; a writer is woken when the last reader leaves a marked word.
pub proof fn lemma_read_unlock_keeps_exclusion(state: u32, threads: Seq<RwThread>, i: int)
    requires
        rw_exclusive(state, threads),
        0 <= i < threads.len(),
        is_reader(threads[i]),
    ensures
        2 <= state < WRITE_LOCKED,
        rw_exclusive(
            word_op_effect(state, WordOp::FetchSub(2, MemOrder::Release)).0,
            threads.update(i, RwThread::Outside),
        ),
{
    let t2 = threads.update(i, RwThread::Outside);
    lemma_reader_count_update(threads, i, RwThread::Outside);
    lemma_reader_count_zero(threads);
    assert(state != WRITE_LOCKED);
    assert forall|k: int| 0 <= k < threads.len() implies !is_writer(#[trigger] threads[k]) by {}
    assert forall|k: int| 0 <= k < t2.len() implies rw_thread_ok(#[trigger] t2[k]) by {
        assert(rw_thread_ok(threads[k]));
    }
    assert forall|k: int| 0 <= k < t2.len() implies !is_writer(#[trigger] t2[k]) by {
        if k != i {
            assert(t2[k] == threads[k]);
        }
    }
}

/// Law (no writer starvation): while the word is odd, that is while it is
/// write-locked or a writer has marked it, no reader gets in.
pub proof fn lemma_odd_word_turns_readers_away(state: u32, phase: ReadPhase)
    requires
        state % 2 == 1,
        phase != ReadPhase::Held,
        read_phase_ok(phase),
    ensures
        read_transition(state, phase).1 != ReadPhase::Held,
        read_transition(state, phase).0 == state,
{
    if let ReadPhase::TryRead(s) = phase {
        assert(s != state);
    }
}

} // verus!

verus! {

/// The word keeps readers out: it is odd, and at least 3 (marked by a
/// waiting writer with readers left, or write-locked).
pub open spec fn word_closed(state: u32) -> bool {
    state % 2 == 1 && state >= 3
}

/// The thread is inside `write`, not yet holding the lock.
pub open spec fn is_waiting_writer(t: RwThread) -> bool {
    match t {
        RwThread::Writing(p) => p != WritePhase::Held,
        _ => false,
    }
}

/// The counter value a writer at `Sleep(w)` sleeps on.
pub open spec fn sleep_value(t: RwThread) -> Option<u32> {
    match t {
        RwThread::Writing(WritePhase::Sleep(w)) => Some(w),
        _ => None,
    }
}

/// The word is odd (and not write-locked) only while some writer waits; and
/// a writer about to sleep on the counter value `w` either finds the counter
/// moved past `w`, so that its wait returns at once, or finds the word still
/// keeping readers out, so that some thread holds the lock and a release
/// that lets a writer in is still to come.
pub open spec fn writers_not_stranded(state: u32, counter: u32, threads: Seq<RwThread>) -> bool {
    &&& (state % 2 == 1 && state != WRITE_LOCKED) ==> exists|i: int|
        0 <= i < threads.len() && is_waiting_writer(threads[i])
    &&& forall|i: int|
        0 <= i < threads.len() && (#[trigger] sleep_value(threads[i])) is Some ==> word_closed(
            state,
        ) || counter != sleep_value(threads[i])->0
}

/// Bumping the counter does not land on the value some sleeping writer
/// sleeps on. It fails only when the counter has been bumped 2^32 times
/// while that writer slept.
pub open spec fn bump_spares_sleepers(counter: u32, threads: Seq<RwThread>) -> bool {
    forall|i: int|
        0 <= i < threads.len() && (#[trigger] sleep_value(threads[i])) is Some ==> sleep_value(
            threads[i],
        )->0 != word_op_effect(counter, WordOp::FetchAdd(1, MemOrder::Release)).0
}

/// Law: an action of any writer inside `write` keeps writers from being
/// stranded: it changes the word only from a word that does not keep
/// readers out, and it sleeps only on a word that does.
pub proof fn lemma_write_step_keeps_writers(
    state: u32,
    counter: u32,
    threads: Seq<RwThread>,
    i: int,
    phase: WritePhase,
)
    requires
        rw_exclusive(state, threads),
        writers_not_stranded(state, counter, threads),
        0 <= i < threads.len(),
        threads[i] == RwThread::Writing(phase),
        phase != WritePhase::Held,
    ensures
        ({
            let (s2, p2) = write_transition(state, counter, phase);
            writers_not_stranded(s2, counter, threads.update(i, RwThread::Writing(p2)))
        }),
{
    let (s2, p2) = write_transition(state, counter, phase);
    let t2 = threads.update(i, RwThread::Writing(p2));
    assert(rw_thread_ok(threads[i]));
    assert forall|k: int|
        0 <= k < t2.len() && (#[trigger] sleep_value(t2[k])) is Some implies word_closed(s2)
            || counter != sleep_value(t2[k])->0 by {
        if k != i {
            assert(t2[k] == threads[k]);
            assert(sleep_value(threads[k]) is Some);
        }
    }
    if s2 % 2 == 1 && s2 != WRITE_LOCKED {
        if s2 == state {
            let j = choose|j: int| 0 <= j < threads.len() && is_waiting_writer(threads[j]);
            if j == i {
                assert(is_waiting_writer(t2[i]));
            } else {
                assert(t2[j] == threads[j]);
            }
        } else {
            assert(is_waiting_writer(t2[i]));
        }
    }
}

/// Law: an action of any reader inside `read` keeps writers from being
/// stranded: a reader joins only an even word.
pub proof fn lemma_read_step_keeps_writers(
    state: u32,
    counter: u32,
    threads: Seq<RwThread>,
    i: int,
    phase: ReadPhase,
)
    requires
        rw_exclusive(state, threads),
        writers_not_stranded(state, counter, threads),
        0 <= i < threads.len(),
        threads[i] == RwThread::Reading(phase),
        phase != ReadPhase::Held,
    ensures
        ({
            let (s2, p2) = read_transition(state, phase);
            writers_not_stranded(s2, counter, threads.update(i, RwThread::Reading(p2)))
        }),
{
    let (s2, p2) = read_transition(state, phase);
    let t2 = threads.update(i, RwThread::Reading(p2));
    assert(rw_thread_ok(threads[i]));
    assert forall|k: int|
        0 <= k < t2.len() && (#[trigger] sleep_value(t2[k])) is Some implies word_closed(s2)
            || counter != sleep_value(t2[k])->0 by {
        assert(k != i);
        assert(t2[k] == threads[k]);
        assert(sleep_value(threads[k]) is Some);
    }
    if s2 % 2 == 1 && s2 != WRITE_LOCKED {
        let j = choose|j: int| 0 <= j < threads.len() && is_waiting_writer(threads[j]);
        assert(t2[j] == threads[j]);
    }
}

/// Law: a thread that starts to lock keeps writers from being stranded.
pub proof fn lemma_enter_keeps_writers(
    state: u32,
    counter: u32,
    threads: Seq<RwThread>,
    i: int,
    entering: RwThread,
)
    requires
        writers_not_stranded(state, counter, threads),
        0 <= i < threads.len(),
        threads[i] == RwThread::Outside,
        entering == RwThread::Writing(WritePhase::Start) || entering == RwThread::Reading(
            ReadPhase::Start,
        ),
    ensures
        writers_not_stranded(state, counter, threads.update(i, entering)),
{
    let t2 = threads.update(i, entering);
    assert forall|k: int|
        0 <= k < t2.len() && (#[trigger] sleep_value(t2[k])) is Some implies word_closed(state)
            || counter != sleep_value(t2[k])->0 by {
        assert(t2[k] == threads[k]);
        assert(sleep_value(threads[k]) is Some);
    }
    if state % 2 == 1 && state != WRITE_LOCKED {
        let j = choose|j: int| 0 <= j < threads.len() && is_waiting_writer(threads[j]);
        assert(t2[j] == threads[j]);
    }
}

/// Law: releasing the write lock clears the word and bumps the counter past
/// the value of every sleeping writer.
pub proof fn lemma_write_unlock_keeps_writers(
    state: u32,
    counter: u32,
    threads: Seq<RwThread>,
    i: int,
)
    requires
        writers_not_stranded(state, counter, threads),
        bump_spares_sleepers(counter, threads),
        0 <= i < threads.len(),
        is_writer(threads[i]),
    ensures
        writers_not_stranded(
            0,
            word_op_effect(counter, WordOp::FetchAdd(1, MemOrder::Release)).0,
            threads.update(i, RwThread::Outside),
        ),
{
    let c2 = word_op_effect(counter, WordOp::FetchAdd(1, MemOrder::Release)).0;
    let t2 = threads.update(i, RwThread::Outside);
    assert forall|k: int|
        0 <= k < t2.len() && (#[trigger] sleep_value(t2[k])) is Some implies word_closed(0) || c2
            != sleep_value(t2[k])->0 by {
        assert(t2[k] == threads[k]);
        assert(sleep_value(threads[k]) is Some);
    }
}

/// Law: releasing a read lock keeps writers from being stranded: the last
/// reader to leave a marked word bumps the counter past the value of every
/// sleeping writer, and the mark stays while its writer waits.
pub proof fn lemma_read_unlock_keeps_writers(
    state: u32,
    counter: u32,
    threads: Seq<RwThread>,
    i: int,
)
    requires
        rw_exclusive(state, threads),
        writers_not_stranded(state, counter, threads),
        bump_spares_sleepers(counter, threads),
        0 <= i < threads.len(),
        is_reader(threads[i]),
    ensures
        ({
            let s2 = word_op_effect(state, WordOp::FetchSub(2, MemOrder::Release)).0;
            let c2 = if state == 3 {
                word_op_effect(counter, WordOp::FetchAdd(1, MemOrder::Release)).0
            } else {
                counter
            };
            writers_not_stranded(s2, c2, threads.update(i, RwThread::Outside))
        }),
{
    lemma_read_unlock_keeps_exclusion(state, threads, i);
    let s2 = word_op_effect(state, WordOp::FetchSub(2, MemOrder::Release)).0;
    let c2 = if state == 3 {
        word_op_effect(counter, WordOp::FetchAdd(1, MemOrder::Release)).0
    } else {
        counter
    };
    let t2 = threads.update(i, RwThread::Outside);
    assert forall|k: int|
        0 <= k < t2.len() && (#[trigger] sleep_value(t2[k])) is Some implies word_closed(s2) || c2
            != sleep_value(t2[k])->0 by {
        assert(t2[k] == threads[k]);
        assert(sleep_value(threads[k]) is Some);
    }
    if s2 % 2 == 1 && s2 != WRITE_LOCKED {
        let j = choose|j: int| 0 <= j < threads.len() && is_waiting_writer(threads[j]);
        assert(t2[j] == threads[j]);
    }
}

/// Law (no stranded writer): a writer that sleeps on a counter which has not
/// moved faces a word that keeps readers out, so some thread holds the lock:
/// the writer, or at least one reader. The release of the writer, or of the
/// last of those readers, lets a writer in and bumps the counter.
pub proof fn lemma_sleeping_writer_has_holder(
    state: u32,
    counter: u32,
    threads: Seq<RwThread>,
    j: int,
)
    requires
        rw_exclusive(state, threads),
        writers_not_stranded(state, counter, threads),
        0 <= j < threads.len(),
        sleep_value(threads[j]) == Some(counter),
    ensures
        word_closed(state),
        exists|h: int| 0 <= h < threads.len() && (is_writer(threads[h]) || is_reader(threads[h])),
{
    assert(sleep_value(threads[j]) is Some);
    lemma_reader_count_zero(threads);
    if state != WRITE_LOCKED {
        assert(reader_count(threads) > 0);
        let h = choose|h: int| 0 <= h < threads.len() && is_reader(threads[h]);
        assert(is_reader(threads[h]));
    }
}

} // verus!

verus! {

/// A reader-writer lock and the threads that use it: the state word, the
/// writer wake-up counter, and where each thread stands.
pub struct RwSystem {
    pub state: u32,
    pub counter: u32,
    pub threads: Seq<RwThread>,
}

/// What one thread does next with the lock.
pub enum RwEvent {
    /// Starts to write-lock.
    StartWrite,
    /// Starts to read-lock.
    StartRead,
    /// Takes the next action inside `write` or `read`.
    Step,
    /// Releases the lock it holds.
    Unlock,
}

/// A new lock and `n` threads, none of which uses it yet.
pub open spec fn rw_initial(n: nat) -> RwSystem {
    RwSystem { state: 0, counter: 0, threads: Seq::new(n, |i: int| RwThread::Outside) }
}

/// The system after thread `tid` does `e`; an event the thread cannot do
/// where it stands changes nothing.
pub open spec fn rw_apply(sys: RwSystem, tid: int, e: RwEvent) -> RwSystem {
    if !(0 <= tid < sys.threads.len()) {
        sys
    } else {
        let t = sys.threads[tid];
        match e {
            RwEvent::StartWrite => if t == RwThread::Outside {
                RwSystem {
                    threads: sys.threads.update(tid, RwThread::Writing(WritePhase::Start)),
                    ..sys
                }
            } else {
                sys
            },
            RwEvent::StartRead => if t == RwThread::Outside {
                RwSystem {
                    threads: sys.threads.update(tid, RwThread::Reading(ReadPhase::Start)),
                    ..sys
                }
            } else {
                sys
            },
            RwEvent::Step => match t {
                RwThread::Writing(p) => if p != WritePhase::Held {
                    let (s2, p2) = write_transition(sys.state, sys.counter, p);
                    RwSystem {
                        state: s2,
                        threads: sys.threads.update(tid, RwThread::Writing(p2)),
                        ..sys
                    }
                } else {
                    sys
                },
                RwThread::Reading(p) => if p != ReadPhase::Held {
                    let (s2, p2) = read_transition(sys.state, p);
                    RwSystem {
                        state: s2,
                        threads: sys.threads.update(tid, RwThread::Reading(p2)),
                        ..sys
                    }
                } else {
                    sys
                },
                RwThread::Outside => sys,
            },
            RwEvent::Unlock => if is_writer(t) {
                RwSystem {
                    state: 0,
                    counter: word_op_effect(sys.counter, WordOp::FetchAdd(1, MemOrder::Release)).0,
                    threads: sys.threads.update(tid, RwThread::Outside),
                }
            } else if is_reader(t) {
                RwSystem {
                    state: word_op_effect(sys.state, WordOp::FetchSub(2, MemOrder::Release)).0,
                    counter: if sys.state == 3 {
                        word_op_effect(sys.counter, WordOp::FetchAdd(1, MemOrder::Release)).0
                    } else {
                        sys.counter
                    },
                    threads: sys.threads.update(tid, RwThread::Outside),
                }
            } else {
                sys
            },
        }
    }
}

/// The system after the events, in order, each by the thread it names.
pub open spec fn rw_run(sys: RwSystem, events: Seq<(int, RwEvent)>) -> RwSystem
    decreases events.len(),
{
    if events.len() == 0 {
        sys
    } else {
        rw_run(rw_apply(sys, events[0].0, events[0].1), events.drop_first())
    }
}

/// No bump of the counter along the run lands on the value a sleeping
/// writer sleeps on (which takes 2^32 bumps during one sleep).
pub open spec fn bumps_spare_sleepers(sys: RwSystem, events: Seq<(int, RwEvent)>) -> bool
    decreases events.len(),
{
    events.len() == 0 || (bump_spares_sleepers(sys.counter, sys.threads) && bumps_spare_sleepers(
        rw_apply(sys, events[0].0, events[0].1),
        events.drop_first(),
    ))
}

proof fn lemma_rw_initial(n: nat)
    requires
        n < 0x7FFF_FFFF,
    ensures
        rw_exclusive(rw_initial(n).state, rw_initial(n).threads),
        writers_not_stranded(rw_initial(n).state, rw_initial(n).counter, rw_initial(n).threads),
{
    let t = rw_initial(n).threads;
    lemma_reader_count_zero(t);
    assert forall|k: int| 0 <= k < t.len() implies !is_reader(#[trigger] t[k]) by {}
    assert forall|k: int| 0 <= k < t.len() implies rw_thread_ok(#[trigger] t[k]) by {}
    assert forall|k: int|
        0 <= k < t.len() && (#[trigger] sleep_value(t[k])) is Some implies word_closed(0) || 0
            != sleep_value(t[k])->0 by {}
}

proof fn lemma_rw_apply_keeps_exclusion(sys: RwSystem, tid: int, e: RwEvent)
    requires
        rw_exclusive(sys.state, sys.threads),
    ensures
        rw_exclusive(rw_apply(sys, tid, e).state, rw_apply(sys, tid, e).threads),
{
    if 0 <= tid < sys.threads.len() {
        let t = sys.threads[tid];
        match e {
            RwEvent::StartWrite => if t == RwThread::Outside {
                lemma_enter_keeps_exclusion(
                    sys.state,
                    sys.threads,
                    tid,
                    RwThread::Writing(WritePhase::Start),
                );
            },
            RwEvent::StartRead => if t == RwThread::Outside {
                lemma_enter_keeps_exclusion(
                    sys.state,
                    sys.threads,
                    tid,
                    RwThread::Reading(ReadPhase::Start),
                );
            },
            RwEvent::Step => match t {
                RwThread::Writing(p) => if p != WritePhase::Held {
                    lemma_write_step_keeps_exclusion(sys.state, sys.counter, sys.threads, tid, p);
                },
                RwThread::Reading(p) => if p != ReadPhase::Held {
                    lemma_read_step_keeps_exclusion(sys.state, sys.threads, tid, p);
                },
                RwThread::Outside => {},
            },
            RwEvent::Unlock => if is_writer(t) {
                lemma_write_unlock_keeps_exclusion(sys.state, sys.threads, tid);
            } else if is_reader(t) {
                lemma_read_unlock_keeps_exclusion(sys.state, sys.threads, tid);
            },
        }
    }
}

proof fn lemma_rw_apply_keeps_writers(sys: RwSystem, tid: int, e: RwEvent)
    requires
        rw_exclusive(sys.state, sys.threads),
        writers_not_stranded(sys.state, sys.counter, sys.threads),
        bump_spares_sleepers(sys.counter, sys.threads),
    ensures
        writers_not_stranded(
            rw_apply(sys, tid, e).state,
            rw_apply(sys, tid, e).counter,
            rw_apply(sys, tid, e).threads,
        ),
{
    if 0 <= tid < sys.threads.len() {
        let t = sys.threads[tid];
        match e {
            RwEvent::StartWrite => if t == RwThread::Outside {
                lemma_enter_keeps_writers(
                    sys.state,
                    sys.counter,
                    sys.threads,
                    tid,
                    RwThread::Writing(WritePhase::Start),
                );
            },
            RwEvent::StartRead => if t == RwThread::Outside {
                lemma_enter_keeps_writers(
                    sys.state,
                    sys.counter,
                    sys.threads,
                    tid,
                    RwThread::Reading(ReadPhase::Start),
                );
            },
            RwEvent::Step => match t {
                RwThread::Writing(p) => if p != WritePhase::Held {
                    lemma_write_step_keeps_writers(sys.state, sys.counter, sys.threads, tid, p);
                },
                RwThread::Reading(p) => if p != ReadPhase::Held {
                    lemma_read_step_keeps_writers(sys.state, sys.counter, sys.threads, tid, p);
                },
                RwThread::Outside => {},
            },
            RwEvent::Unlock => if is_writer(t) {
                lemma_write_unlock_keeps_writers(sys.state, sys.counter, sys.threads, tid);
            } else if is_reader(t) {
                lemma_read_unlock_keeps_writers(sys.state, sys.counter, sys.threads, tid);
            },
        }
    }
}

proof fn lemma_rw_run_keeps_exclusion(sys: RwSystem, events: Seq<(int, RwEvent)>)
    requires
        rw_exclusive(sys.state, sys.threads),
    ensures
        rw_exclusive(rw_run(sys, events).state, rw_run(sys, events).threads),
    decreases events.len(),
{
    if events.len() > 0 {
        lemma_rw_apply_keeps_exclusion(sys, events[0].0, events[0].1);
        lemma_rw_run_keeps_exclusion(rw_apply(sys, events[0].0, events[0].1), events.drop_first());
    }
}

proof fn lemma_rw_run_keeps_writers(sys: RwSystem, events: Seq<(int, RwEvent)>)
    requires
        rw_exclusive(sys.state, sys.threads),
        writers_not_stranded(sys.state, sys.counter, sys.threads),
        bumps_spare_sleepers(sys, events),
    ensures
        writers_not_stranded(
            rw_run(sys, events).state,
            rw_run(sys, events).counter,
            rw_run(sys, events).threads,
        ),
    decreases events.len(),
{
    if events.len() > 0 {
        let s1 = rw_apply(sys, events[0].0, events[0].1);
        lemma_rw_apply_keeps_exclusion(sys, events[0].0, events[0].1);
        lemma_rw_apply_keeps_writers(sys, events[0].0, events[0].1);
        lemma_rw_run_keeps_writers(s1, events.drop_first());
    }
}

/// Law (exclusion over whole runs): from a new lock, after any events of up
/// to 2^31 - 2 threads, at most one writer holds the lock, no reader holds
/// it beside a writer, and the word is `WRITE_LOCKED` exactly while a writer
/// holds it and otherwise twice the number of readers, plus one at most.
pub proof fn lemma_rw_run_exclusive(n: nat, events: Seq<(int, RwEvent)>)
    requires
        n < 0x7FFF_FFFF,
    ensures
        ({
            let s = rw_run(rw_initial(n), events);
            &&& rw_exclusive(s.state, s.threads)
            &&& forall|w: int, r: int|
                0 <= w < s.threads.len() && 0 <= r < s.threads.len() && is_writer(
                    #[trigger] s.threads[w],
                ) ==> !is_reader(#[trigger] s.threads[r])
        }),
{
    lemma_rw_initial(n);
    lemma_rw_run_keeps_exclusion(rw_initial(n), events);
    let s = rw_run(rw_initial(n), events);
    assert forall|w: int, r: int|
        0 <= w < s.threads.len() && 0 <= r < s.threads.len() && is_writer(
            #[trigger] s.threads[w],
        ) implies !is_reader(#[trigger] s.threads[r]) by {
        lemma_writer_excludes_readers(s.state, s.threads, w, r);
    }
}

/// Law (no writer starvation over whole runs): from a new lock, after any
/// events whose counter bumps never land on a sleeping writer's value, the
/// word is odd (and not write-locked) only while some writer waits, and a
/// writer sleeping on the current counter value faces a word that keeps
/// readers out and a holder whose release will bump the counter.
pub proof fn lemma_rw_run_writers_not_stranded(n: nat, events: Seq<(int, RwEvent)>)
    requires
        n < 0x7FFF_FFFF,
        bumps_spare_sleepers(rw_initial(n), events),
    ensures
        ({
            let s = rw_run(rw_initial(n), events);
            &&& writers_not_stranded(s.state, s.counter, s.threads)
            &&& forall|j: int|
                0 <= j < s.threads.len() && #[trigger] sleep_value(s.threads[j]) == Some(
                    s.counter,
                ) ==> word_closed(s.state) && exists|h: int|
                    0 <= h < s.threads.len() && (is_writer(s.threads[h]) || is_reader(
                        s.threads[h],
                    ))
        }),
{
    lemma_rw_initial(n);
    lemma_rw_run_keeps_exclusion(rw_initial(n), events);
    lemma_rw_run_keeps_writers(rw_initial(n), events);
    let s = rw_run(rw_initial(n), events);
    assert forall|j: int|
        0 <= j < s.threads.len() && #[trigger] sleep_value(s.threads[j]) == Some(
            s.counter,
        ) implies word_closed(s.state) && exists|h: int|
        0 <= h < s.threads.len() && (is_writer(s.threads[h]) || is_reader(s.threads[h])) by {
        lemma_sleeping_writer_has_holder(s.state, s.counter, s.threads, j);
    }
}

} // verus!

verus! {

/// A reader-writer lock guarding a number that its writers increment: the
/// lock and its threads, the number while it is in the lock, the number in
/// each thread's write guard, and how many increments have been made.
pub struct CountingRw {
    pub sys: RwSystem,
    pub value: Option<int>,
    pub guards: Seq<Option<int>>,
    pub increments: nat,
}

/// What one thread does next with a counting reader-writer lock.
pub enum CountingRwEvent {
    /// A lock event; a writer that takes the lock takes the number into its
    /// guard, and its unlock puts the number back.
    Lock(RwEvent),
    /// A writer adds one to the number in its guard.
    Increment,
}

/// The system after thread `tid` does `e`; an event the thread cannot do
/// where it stands changes nothing.
pub open spec fn counting_rw_apply(c: CountingRw, tid: int, e: CountingRwEvent) -> CountingRw {
    if !(0 <= tid < c.sys.threads.len() && c.guards.len() == c.sys.threads.len()) {
        c
    } else {
        match e {
            CountingRwEvent::Lock(le) => {
                let s2 = rw_apply(c.sys, tid, le);
                let was_w = is_writer(c.sys.threads[tid]);
                let now_w = is_writer(s2.threads[tid]);
                if !was_w && now_w {
                    CountingRw {
                        sys: s2,
                        value: None,
                        guards: c.guards.update(tid, c.value),
                        ..c
                    }
                } else if was_w && !now_w {
                    CountingRw {
                        sys: s2,
                        value: c.guards[tid],
                        guards: c.guards.update(tid, None),
                        ..c
                    }
                } else {
                    CountingRw { sys: s2, ..c }
                }
            },
            CountingRwEvent::Increment => match c.guards[tid] {
                Some(v) => CountingRw {
                    guards: c.guards.update(tid, Some(v + 1)),
                    increments: c.increments + 1,
                    ..c
                },
                None => c,
            },
        }
    }
}

/// The system after the events, in order.
pub open spec fn counting_rw_run(c: CountingRw, events: Seq<(int, CountingRwEvent)>) -> CountingRw
    decreases events.len(),
{
    if events.len() == 0 {
        c
    } else {
        counting_rw_run(counting_rw_apply(c, events[0].0, events[0].1), events.drop_first())
    }
}

/// The number is in exactly one place, the lock while no writer holds it or
/// the writer's guard, and it is the initial number plus every increment.
pub open spec fn counting_rw_ok(c: CountingRw, init: int) -> bool {
    &&& rw_exclusive(c.sys.state, c.sys.threads)
    &&& c.guards.len() == c.sys.threads.len()
    &&& forall|i: int|
        0 <= i < c.guards.len() ==> (#[trigger] c.guards[i] is Some <==> is_writer(
            c.sys.threads[i],
        ))
    &&& (c.value is Some) == (c.sys.state != WRITE_LOCKED)
    &&& c.value is Some ==> c.value == Some(init + c.increments)
    &&& forall|i: int|
        0 <= i < c.guards.len() && #[trigger] c.guards[i] is Some ==> c.guards[i] == Some(
            init + c.increments,
        )
}

proof fn lemma_counting_rw_apply_keeps(c: CountingRw, init: int, tid: int, e: CountingRwEvent)
    requires
        counting_rw_ok(c, init),
    ensures
        counting_rw_ok(counting_rw_apply(c, tid, e), init),
{
    if 0 <= tid < c.sys.threads.len() {
        let c2 = counting_rw_apply(c, tid, e);
        match e {
            CountingRwEvent::Lock(le) => {
                lemma_rw_apply_keeps_exclusion(c.sys, tid, le);
                let s2 = c2.sys;
                assert(s2.threads.len() == c.sys.threads.len());
                assert forall|k: int| 0 <= k < s2.threads.len() && k != tid implies #[trigger] s2.threads[k]
                    == c.sys.threads[k] by {}
                let was_w = is_writer(c.sys.threads[tid]);
                let now_w = is_writer(s2.threads[tid]);
                if !was_w && now_w {
                    if c.sys.state == WRITE_LOCKED {
                        let w = choose|w: int| 0 <= w < c.sys.threads.len() && is_writer(c.sys.threads[w]);
                        assert(s2.threads[w] == c.sys.threads[w]);
                        assert(is_writer(s2.threads[w]) && is_writer(s2.threads[tid]));
                    }
                    assert(s2.state == WRITE_LOCKED);
                } else if was_w && !now_w {
                    assert(c.sys.state == WRITE_LOCKED);
                    if s2.state == WRITE_LOCKED {
                        let w = choose|w: int| 0 <= w < s2.threads.len() && is_writer(s2.threads[w]);
                        assert(c.sys.threads[w] == s2.threads[w]);
                        assert(is_writer(c.sys.threads[w]) && is_writer(c.sys.threads[tid]));
                    }
                } else {
                    if c.sys.state == WRITE_LOCKED {
                        let w = choose|w: int| 0 <= w < c.sys.threads.len() && is_writer(c.sys.threads[w]);
                        assert(s2.threads[w] == c.sys.threads[w]);
                        assert(is_writer(s2.threads[w]));
                    }
                    if s2.state == WRITE_LOCKED {
                        let w = choose|w: int| 0 <= w < s2.threads.len() && is_writer(s2.threads[w]);
                        assert(c.sys.threads[w] == s2.threads[w]);
                        assert(is_writer(c.sys.threads[w]));
                    }
                }
                assert forall|i: int| 0 <= i < c2.guards.len() implies (#[trigger] c2.guards[i]
                    is Some <==> is_writer(c2.sys.threads[i])) by {
                    assert(c.guards[i] is Some <==> is_writer(c.sys.threads[i]));
                }
            },
            CountingRwEvent::Increment => {
                assert forall|i: int|
                    0 <= i < c2.guards.len() && #[trigger] c2.guards[i] is Some implies c2.guards[i]
                        == Some(init + c2.increments) by {
                    if c.guards[tid] is Some && i != tid {
                        assert(is_writer(c.sys.threads[tid]) && is_writer(c.sys.threads[i]));
                    }
                }
                if c.guards[tid] is Some {
                    assert(is_writer(c.sys.threads[tid]));
                }
            },
        }
    }
}

proof fn lemma_counting_rw_run_keeps(c: CountingRw, init: int, events: Seq<(int, CountingRwEvent)>)
    requires
        counting_rw_ok(c, init),
    ensures
        counting_rw_ok(counting_rw_run(c, events), init),
    decreases events.len(),
{
    if events.len() > 0 {
        lemma_counting_rw_apply_keeps(c, init, events[0].0, events[0].1);
        lemma_counting_rw_run_keeps(
            counting_rw_apply(c, events[0].0, events[0].1),
            init,
            events.drop_first(),
        );
    }
}

/// Law (no update made under a write lock is lost, and readers see the
/// latest): from a new lock holding `init` and up to 2^31 - 2 threads, after
/// any events, while no writer holds the lock (readers may) it holds `init`
/// plus the number of increments made; while a writer holds it, that
/// writer's guard holds that number.
pub proof fn lemma_counting_rw_run_adds_up(n: nat, init: int, events: Seq<(int, CountingRwEvent)>)
    requires
        n < 0x7FFF_FFFF,
    ensures
        ({
            let c = counting_rw_run(
                CountingRw {
                    sys: rw_initial(n),
                    value: Some(init),
                    guards: Seq::new(n, |i: int| None::<int>),
                    increments: 0,
                },
                events,
            );
            &&& c.sys.state != WRITE_LOCKED ==> c.value == Some(init + c.increments)
            &&& forall|i: int|
                0 <= i < c.guards.len() && is_writer(#[trigger] c.sys.threads[i]) ==> c.guards[i]
                    == Some(init + c.increments)
        }),
{
    let c0 = CountingRw {
        sys: rw_initial(n),
        value: Some(init),
        guards: Seq::new(n, |i: int| None::<int>),
        increments: 0,
    };
    lemma_rw_initial(n);
    assert forall|i: int| 0 <= i < c0.guards.len() implies (#[trigger] c0.guards[i]
        is Some <==> is_writer(c0.sys.threads[i])) by {}
    assert(c0.sys.state != WRITE_LOCKED);
    lemma_counting_rw_run_keeps(c0, init, events);
    let c = counting_rw_run(c0, events);
    assert forall|i: int|
        0 <= i < c.guards.len() && is_writer(#[trigger] c.sys.threads[i]) implies c.guards[i]
        == Some(init + c.increments) by {
        assert(c.guards[i] is Some);
    }
}

} // verus!

verus! {

/// `k` actions in a row by thread `tid` alone.
pub open spec fn solo_steps(tid: int, k: nat) -> Seq<(int, RwEvent)> {
    Seq::new(k, |i: int| (tid, RwEvent::Step))
}

proof fn lemma_rw_run_one_more(sys: RwSystem, tid: int, k: nat)
    ensures
        rw_run(sys, solo_steps(tid, k + 1)) == rw_run(rw_apply(sys, tid, RwEvent::Step), solo_steps(tid, k)),
{
    assert(solo_steps(tid, k + 1).drop_first() =~= solo_steps(tid, k));
}

proof fn lemma_step_leaves_others(sys: RwSystem, tid: int, k: int)
    requires
        0 <= k < sys.threads.len(),
        k != tid,
    ensures
        rw_apply(sys, tid, RwEvent::Step).threads[k] == sys.threads[k],
        rw_apply(sys, tid, RwEvent::Step).threads.len() == sys.threads.len(),
{
}

proof fn lemma_rw_run_none(sys: RwSystem, tid: int)
    ensures
        rw_run(sys, solo_steps(tid, 0)) == sys,
{
    assert(solo_steps(tid, 0) =~= Seq::<(int, RwEvent)>::empty());
}

/// Law (a waiting writer gets in once no reader is left): while the word
/// holds no reader and no writer (0, or 1 when marked), a writer inside
/// `write`, whatever its phase (asleep included), holds the lock after at
/// most three actions of its own, if no other thread acts; the other threads
/// stay where they stood.
pub proof fn lemma_writer_gets_in_when_readers_gone(sys: RwSystem, w: int)
    requires
        rw_exclusive(sys.state, sys.threads),
        sys.state <= 1,
        0 <= w < sys.threads.len(),
        sys.threads[w] is Writing,
    ensures
        is_writer(rw_run(sys, solo_steps(w, 3)).threads[w]),
        forall|k: int|
            0 <= k < sys.threads.len() && k != w ==> #[trigger] rw_run(sys, solo_steps(w, 3)).threads[k]
                == sys.threads[k],
{
    let s1 = rw_apply(sys, w, RwEvent::Step);
    let s2 = rw_apply(s1, w, RwEvent::Step);
    let s3 = rw_apply(s2, w, RwEvent::Step);
    lemma_rw_run_one_more(sys, w, 2);
    lemma_rw_run_one_more(s1, w, 1);
    lemma_rw_run_one_more(s2, w, 0);
    lemma_rw_run_none(s3, w);
    assert forall|k: int| 0 <= k < sys.threads.len() && k != w implies #[trigger] s3.threads[k]
        == sys.threads[k] by {
        lemma_step_leaves_others(sys, w, k);
        lemma_step_leaves_others(s1, w, k);
        lemma_step_leaves_others(s2, w, k);
    }
    let p = sys.threads[w]->Writing_0;
    assert(rw_thread_ok(sys.threads[w]));
    // A word without readers or writer stays put while the writer alone acts and has
    // not taken the lock; each phase reaches a `TryLock` of that word within two actions.
    match p {
        WritePhase::Held => {},
        WritePhase::TryLock(s) => {
            if s != sys.state {
                assert(s1.threads[w] == RwThread::Writing(WritePhase::TryLock(sys.state)));
            }
        },
        WritePhase::Mark(s) => {
            assert(s1.threads[w] == RwThread::Writing(WritePhase::TryLock(sys.state)));
        },
        WritePhase::Start => {
            assert(s1.threads[w] == RwThread::Writing(WritePhase::TryLock(sys.state)));
        },
        WritePhase::Recheck(c) => {
            assert(s1.threads[w] == RwThread::Writing(WritePhase::TryLock(sys.state)));
        },
        WritePhase::ReadCounter => {
            assert(s1.state == sys.state);
            assert(s2.threads[w] == RwThread::Writing(WritePhase::TryLock(sys.state)));
        },
        WritePhase::Sleep(c) => {
            assert(s1.threads[w] == RwThread::Writing(WritePhase::Start));
            assert(s2.threads[w] == RwThread::Writing(WritePhase::TryLock(sys.state)));
        },
    }
}

/// Law (the last reader lets a waiting writer in): when the only reader
/// releases its read lock while a writer waits inside `write` (asleep or
/// not), the writer holds the lock after at most three actions of its own,
/// if no other thread acts in between.
pub proof fn lemma_last_reader_lets_writer_in(sys: RwSystem, r: int, w: int)
    requires
        rw_exclusive(sys.state, sys.threads),
        0 <= r < sys.threads.len(),
        0 <= w < sys.threads.len(),
        is_reader(sys.threads[r]),
        reader_count(sys.threads) == 1,
        sys.threads[w] is Writing,
    ensures
        is_writer(
            rw_run(rw_apply(sys, r, RwEvent::Unlock), solo_steps(w, 3)).threads[w],
        ),
{
    lemma_rw_apply_keeps_exclusion(sys, r, RwEvent::Unlock);
    lemma_reader_count_zero(sys.threads);
    if sys.state == WRITE_LOCKED {
        assert(reader_count(sys.threads) == 0);
    }
    let s1 = rw_apply(sys, r, RwEvent::Unlock);
    assert(s1.state <= 1);
    assert(w != r);
    assert(s1.threads[w] == sys.threads[w]);
    lemma_writer_gets_in_when_readers_gone(s1, w);
}

/// Law (a waiting reader gets in once the writer is gone): while the word is
/// even (no writer holds or waits for the lock) with room for one more
/// reader, a reader inside `read`, whatever its phase (asleep included),
/// holds a read lock after at most three actions of its own, if no other
/// thread acts; the other threads stay where they stood, so readers already
/// in keep their read locks beside it.
pub proof fn lemma_reader_gets_in_when_word_even(sys: RwSystem, j: int)
    requires
        rw_exclusive(sys.state, sys.threads),
        sys.state % 2 == 0,
        sys.state < u32::MAX - 1,
        0 <= j < sys.threads.len(),
        sys.threads[j] is Reading,
    ensures
        is_reader(rw_run(sys, solo_steps(j, 3)).threads[j]),
        forall|k: int|
            0 <= k < sys.threads.len() && k != j ==> #[trigger] rw_run(sys, solo_steps(j, 3)).threads[k]
                == sys.threads[k],
{
    let s1 = rw_apply(sys, j, RwEvent::Step);
    let s2 = rw_apply(s1, j, RwEvent::Step);
    let s3 = rw_apply(s2, j, RwEvent::Step);
    lemma_rw_run_one_more(sys, j, 2);
    lemma_rw_run_one_more(s1, j, 1);
    lemma_rw_run_one_more(s2, j, 0);
    lemma_rw_run_none(s3, j);
    assert(rw_thread_ok(sys.threads[j]));
    assert forall|k: int| 0 <= k < sys.threads.len() && k != j implies #[trigger] s3.threads[k]
        == sys.threads[k] by {
        lemma_step_leaves_others(sys, j, k);
        lemma_step_leaves_others(s1, j, k);
        lemma_step_leaves_others(s2, j, k);
    }
}

/// Law (a write unlock lets readers in): when the writer `h` releases the
/// lock while a reader waits inside `read` (asleep or not), the reader holds
/// a read lock after at most three actions of its own, if no other thread
/// acts in between.
pub proof fn lemma_write_unlock_lets_reader_in(sys: RwSystem, h: int, j: int)
    requires
        rw_exclusive(sys.state, sys.threads),
        0 <= h < sys.threads.len(),
        0 <= j < sys.threads.len(),
        is_writer(sys.threads[h]),
        sys.threads[j] is Reading,
    ensures
        is_reader(rw_run(rw_apply(sys, h, RwEvent::Unlock), solo_steps(j, 3)).threads[j]),
{
    lemma_rw_apply_keeps_exclusion(sys, h, RwEvent::Unlock);
    let s1 = rw_apply(sys, h, RwEvent::Unlock);
    assert(s1.state == 0);
    assert(s1.threads[j] == sys.threads[j]);
    lemma_reader_gets_in_when_word_even(s1, j);
}

} // verus!

verus! {

/// The word is odd (and not write-locked) only while some writer waits
/// inside `write`.
pub open spec fn odd_word_has_waiting_writer(state: u32, threads: Seq<RwThread>) -> bool {
    (state % 2 == 1 && state != WRITE_LOCKED) ==> exists|i: int|
        0 <= i < threads.len() && is_waiting_writer(#[trigger] threads[i])
}

proof fn lemma_rw_apply_keeps_odd_word(sys: RwSystem, tid: int, e: RwEvent)
    requires
        rw_exclusive(sys.state, sys.threads),
        odd_word_has_waiting_writer(sys.state, sys.threads),
    ensures
        odd_word_has_waiting_writer(rw_apply(sys, tid, e).state, rw_apply(sys, tid, e).threads),
{
    let s2 = rw_apply(sys, tid, e);
    if 0 <= tid < sys.threads.len() && s2.state % 2 == 1 && s2.state != WRITE_LOCKED {
        let t = sys.threads[tid];
        if s2.threads[tid] is Writing && s2.threads[tid] != RwThread::Writing(WritePhase::Held) {
            assert(is_waiting_writer(s2.threads[tid]));
        } else {
            // The word was odd before, and its waiting writer is another thread.
            assert(sys.state % 2 == 1 && sys.state != WRITE_LOCKED) by {
                match e {
                    RwEvent::Step => match t {
                        RwThread::Reading(p) => {
                            assert(rw_thread_ok(t));
                        },
                        RwThread::Writing(p) => {
                            assert(rw_thread_ok(t));
                        },
                        RwThread::Outside => {},
                    },
                    RwEvent::Unlock => if is_reader(t) {
                        lemma_reader_count_zero(sys.threads);
                        if sys.state == WRITE_LOCKED {
                            assert(reader_count(sys.threads) == 0);
                        }
                    },
                    _ => {},
                }
            }
            let w = choose|w: int| 0 <= w < sys.threads.len() && is_waiting_writer(#[trigger] sys.threads[w]);
            assert(w != tid || is_waiting_writer(s2.threads[tid]));
            assert(is_waiting_writer(s2.threads[w]));
        }
    }
}

proof fn lemma_rw_run_keeps_odd_word(sys: RwSystem, events: Seq<(int, RwEvent)>)
    requires
        rw_exclusive(sys.state, sys.threads),
        odd_word_has_waiting_writer(sys.state, sys.threads),
    ensures
        odd_word_has_waiting_writer(rw_run(sys, events).state, rw_run(sys, events).threads),
    decreases events.len(),
{
    if events.len() > 0 {
        lemma_rw_apply_keeps_exclusion(sys, events[0].0, events[0].1);
        lemma_rw_apply_keeps_odd_word(sys, events[0].0, events[0].1);
        lemma_rw_run_keeps_odd_word(rw_apply(sys, events[0].0, events[0].1), events.drop_first());
    }
}

/// Law (the mark means a waiting writer, over whole runs): from a new lock,
/// after any events of up to 2^31 - 2 threads, the word is odd and not
/// write-locked only while some writer waits inside `write`.
pub proof fn lemma_rw_run_odd_word_has_waiting_writer(n: nat, events: Seq<(int, RwEvent)>)
    requires
        n < 0x7FFF_FFFF,
    ensures
        odd_word_has_waiting_writer(
            rw_run(rw_initial(n), events).state,
            rw_run(rw_initial(n), events).threads,
        ),
{
    lemma_rw_initial(n);
    lemma_rw_run_keeps_odd_word(rw_initial(n), events);
}

} // verus!

verus! {

/// Law (`write` returns a guard only to the holder): a writer's next action
/// is `Finished` exactly when it holds the lock; so, in any consistent
/// state, a writer whose action is `Finished` finds the word write-locked
/// and no reader holding a read lock. A writer waits only when asleep, and
/// then on the counter value it is asleep on.
pub proof fn lemma_writer_finishes_only_holding(state: u32, threads: Seq<RwThread>, i: int)
    requires
        rw_exclusive(state, threads),
        0 <= i < threads.len(),
        threads[i] is Writing,
    ensures
        (spec_write_action(threads[i]->Writing_0) is Finished) == is_writer(threads[i]),
        spec_write_action(threads[i]->Writing_0) is Finished ==> {
            &&& state == WRITE_LOCKED
            &&& forall|r: int| 0 <= r < threads.len() ==> !is_reader(#[trigger] threads[r])
        },
        spec_write_action(threads[i]->Writing_0) is WaitCounter <==> sleep_value(threads[i]) is Some,
        spec_write_action(threads[i]->Writing_0) is WaitCounter ==> Some(
            spec_write_action(threads[i]->Writing_0)->WaitCounter_0,
        ) == sleep_value(threads[i]),
{
    if is_writer(threads[i]) {
        assert forall|r: int| 0 <= r < threads.len() implies !is_reader(#[trigger] threads[r]) by {
            lemma_writer_excludes_readers(state, threads, i, r);
        }
    }
}

/// Law (`read` returns a guard only to a reader that joined): a reader's
/// next action is `Finished` exactly when it holds a read lock; so, in any
/// consistent state, a reader whose action is `Finished` finds no writer
/// holding the lock. A reader waits only when asleep, and then on the state
/// word value it saw.
pub proof fn lemma_reader_finishes_only_holding(state: u32, threads: Seq<RwThread>, i: int)
    requires
        rw_exclusive(state, threads),
        0 <= i < threads.len(),
        threads[i] is Reading,
    ensures
        (spec_read_action(threads[i]->Reading_0) is Finished) == is_reader(threads[i]),
        spec_read_action(threads[i]->Reading_0) is Finished ==> {
            &&& state != WRITE_LOCKED
            &&& forall|w: int| 0 <= w < threads.len() ==> !is_writer(#[trigger] threads[w])
        },
        spec_read_action(threads[i]->Reading_0) is WaitState ==> threads[i] == RwThread::Reading(
            ReadPhase::Sleep(spec_read_action(threads[i]->Reading_0)->WaitState_0),
        ),
{
    if is_reader(threads[i]) {
        assert forall|w: int| 0 <= w < threads.len() implies !is_writer(#[trigger] threads[w]) by {
            if is_writer(threads[w]) {
                lemma_writer_excludes_readers(state, threads, w, i);
            }
        }
        if state == WRITE_LOCKED {
            let w = choose|w: int| 0 <= w < threads.len() && is_writer(threads[w]);
            lemma_writer_excludes_readers(state, threads, w, i);
        }
    }
}

/// Law (a waiting writer does not get past readers): a writer that faces
/// readers, whichever of its phases it acts from, ends up asleep or still
/// on its way, never holding the lock, while a reader holds a read lock.
pub proof fn lemma_writer_blocked_by_reader(sys: RwSystem, w: int, r: int)
    requires
        rw_exclusive(sys.state, sys.threads),
        0 <= w < sys.threads.len(),
        0 <= r < sys.threads.len(),
        is_reader(sys.threads[r]),
        sys.threads[w] is Writing,
    ensures
        !is_writer(rw_apply(sys, w, RwEvent::Step).threads[w]) || is_writer(sys.threads[w]),
        is_reader(rw_apply(sys, w, RwEvent::Step).threads[r]) || w == r,
{
    lemma_rw_apply_keeps_exclusion(sys, w, RwEvent::Step);
    let s2 = rw_apply(sys, w, RwEvent::Step);
    if w != r {
        assert(s2.threads[r] == sys.threads[r]);
        if is_writer(s2.threads[w]) {
            lemma_writer_excludes_readers(s2.state, s2.threads, w, r);
        }
    }
}

} // verus!
