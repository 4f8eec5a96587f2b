//! An atomically reference-counted cell: a shared allocation holding a
//! value and the number of handles that point at it.
use crate::word::{apply_count_op, count_op_effect, CountOp, MemOrder};
use std::marker::PhantomData;
use vstd::prelude::*;

verus! {

/// The instruction that a clone issues: add one handle.
pub fn clone_op() -> (r: CountOp)
    ensures
        r == CountOp::FetchAdd(1, MemOrder::Relaxed),
{
    CountOp::FetchAdd(1, MemOrder::Relaxed)
}

/// The instruction that dropping a handle issues: take one handle off.
pub fn drop_op() -> (r: CountOp)
    ensures
        r == CountOp::FetchSub(1, MemOrder::Release),
{
    CountOp::FetchSub(1, MemOrder::Release)
}

/// Whether the handle whose drop found the count at `previous` was the last
/// one, so that it frees the allocation (after an acquire fence).
pub fn drop_frees(previous: usize) -> (r: bool)
    ensures
        r == (previous == 1),
{
    previous == 1
}

/// The instruction that an unwrap issues: swing the count from one to zero.
pub fn try_unwrap_op() -> (r: CountOp)
    ensures
        r == CountOp::CompareExchange(1, 0, MemOrder::Release, MemOrder::Relaxed),
{
    CountOp::CompareExchange(1, 0, MemOrder::Release, MemOrder::Relaxed)
}

/// Whether the unwrap whose instruction returned `previous` took the value.
pub fn unwrapped(previous: usize) -> (r: bool)
    ensures
        r == (previous == 1),
{
    previous == 1
}

/// The shared allocation: the value, present until the last handle frees it
/// or unwraps it, and the count of handles.
pub struct ArcInner<T> {
    data: Option<T>,
    count: usize,
    id: Ghost<int>,
}

/// A handle on an `ArcInner`.
pub struct Arc<T> {
    marker: PhantomData<T>,
    id: Ghost<int>,
}

impl<T> ArcInner<T> {
    /// The count of handles.
    pub closed spec fn count(&self) -> usize {
        self.count
    }

    /// The value, absent once freed or unwrapped.
    pub closed spec fn data(&self) -> Option<T> {
        self.data
    }

    /// Which allocation this is; its handles carry the same.
    pub closed spec fn id(&self) -> int {
        self.id@
    }

    /// The count of handles.
    pub fn strong_count(&self) -> (r: usize)
        ensures
            r == self.count(),
    {
        self.count
    }

    /// The value is present exactly while some handle points at it.
    pub closed spec fn wf(&self) -> bool {
        (self.count > 0) == (self.data is Some)
    }
}

impl<T> Arc<T> {
    /// The allocation this handle points at.
    pub closed spec fn id(&self) -> int {
        self.id@
    }

    /// A new allocation holding `data`, and the one handle on it.
    pub fn new(data: T) -> (r: (Arc<T>, ArcInner<T>))
        ensures
            r.1.wf(),
            r.1.count() == 1,
            r.1.data() == Some(data),
            r.0.id() == r.1.id(),
    {
        let id: Ghost<int> = Ghost(vstd::pervasive::arbitrary());
        (Arc { marker: PhantomData, id }, ArcInner { data: Some(data), count: 1, id })
    }

    /// The shared value.
    pub fn get<'a>(&self, inner: &'a ArcInner<T>) -> (r: &'a T)
        requires
            self.id() == inner.id(),
            inner.wf(),
            inner.count() > 0,
        ensures
            inner.data() == Some(*r),
    {
        match &inner.data {
            Some(d) => d,
            None => vstd::pervasive::unreached(),
        }
    }

    /// Another handle on the same allocation. (The count cannot reach
    /// `usize::MAX`: there is not memory for as many handles.)
    pub fn clone_handle(&self, inner: &mut ArcInner<T>) -> (r: Arc<T>)
        requires
            self.id() == old(inner).id(),
            old(inner).wf(),
            0 < old(inner).count() < usize::MAX,
        ensures
            r.id() == self.id(),
            final(inner).wf(),
            final(inner).id() == old(inner).id(),
            final(inner).count() == old(inner).count() + 1,
            final(inner).data() == old(inner).data(),
    {
        apply_count_op(&mut inner.count, clone_op());
        Arc { marker: PhantomData, id: Ghost(self.id@) }
    }

    /// Drops this handle; the last handle frees the value. Returns whether
    /// this handle was the last one.
    pub fn drop_handle(self, inner: &mut ArcInner<T>) -> (freed: bool)
        requires
            self.id() == old(inner).id(),
            old(inner).wf(),
            old(inner).count() > 0,
        ensures
            final(inner).wf(),
            final(inner).id() == old(inner).id(),
            final(inner).count() == old(inner).count() - 1,
            freed == (old(inner).count() == 1),
            freed ==> final(inner).data() is None,
            !freed ==> final(inner).data() == old(inner).data(),
    {
        let previous = apply_count_op(&mut inner.count, drop_op());
        let freed = drop_frees(previous);
        if freed {
            inner.data = None;
        }
        freed
    }

    /// Takes the value out when `this` is the only handle, consuming it;
    /// otherwise hands `this` back.
    pub fn try_unwrap(this: Arc<T>, inner: &mut ArcInner<T>) -> (r: Result<T, Arc<T>>)
        requires
            this.id() == old(inner).id(),
            old(inner).wf(),
            old(inner).count() > 0,
        ensures
            final(inner).wf(),
            final(inner).id() == old(inner).id(),
            old(inner).count() == 1 ==> {
                &&& r is Ok
                &&& old(inner).data() == Some(r->Ok_0)
                &&& final(inner).count() == 0
                &&& final(inner).data() is None
            },
            old(inner).count() != 1 ==> r == Err::<T, Arc<T>>(this) && *final(inner) == *old(inner),
    {
        let previous = apply_count_op(&mut inner.count, try_unwrap_op());
        if unwrapped(previous) {
            match inner.data.take() {
                Some(data) => Ok(data),
                None => vstd::pervasive::unreached(),
            }
        } else {
            Err(this)
        }
    }

    /// Takes the value out of the only handle. (With other handles alive the
    /// value cannot be taken, and unwrapping fails; `try_unwrap` reports it.)
    pub fn into_inner(this: Arc<T>, inner: &mut ArcInner<T>) -> (r: T)
        requires
            this.id() == old(inner).id(),
            old(inner).wf(),
            old(inner).count() == 1,
        ensures
            final(inner).wf(),
            final(inner).id() == old(inner).id(),
            final(inner).count() == 0,
            final(inner).data() is None,
            old(inner).data() == Some(r),
    {
        match Self::try_unwrap(this, inner) {
            Ok(data) => data,
            Err(_) => vstd::pervasive::unreached(),
        }
    }
}

/// The number of handles that the threads hold, `handles[i]` for thread `i`.
pub open spec fn handle_total(handles: Seq<nat>) -> nat
    decreases handles.len(),
{
    if handles.len() == 0 {
        0
    } else {
        handle_total(handles.drop_last()) + handles.last()
    }
}

proof fn lemma_handle_total_update(handles: Seq<nat>, i: int, x: nat)
    requires
        0 <= i < handles.len(),
    ensures
        handle_total(handles.update(i, x)) + handles[i] == handle_total(handles) + x,
    decreases handles.len(),
{
    let h2 = handles.update(i, x);
    if i == handles.len() - 1 {
        assert(h2.drop_last() =~= handles.drop_last());
    } else {
        assert(h2.drop_last() =~= handles.drop_last().update(i, x));
        lemma_handle_total_update(handles.drop_last(), i, x);
    }
}

proof fn lemma_handle_total_part(handles: Seq<nat>, i: int)
    requires
        0 <= i < handles.len(),
    ensures
        handles[i] <= handle_total(handles),
    decreases handles.len(),
{
    if i < handles.len() - 1 {
        lemma_handle_total_part(handles.drop_last(), i);
    }
}

/// The count of an allocation is the number of handles the threads hold.
pub open spec fn count_matches(count: usize, handles: Seq<nat>) -> bool {
    count == handle_total(handles)
}

/// Law: a clone by a thread that holds a handle adds one to the count and
/// one to the thread's handles, so the count stays right.
pub proof fn lemma_clone_keeps_count(count: usize, handles: Seq<nat>, i: int)
    requires
        count_matches(count, handles),
        0 <= i < handles.len(),
        handles[i] > 0,
        count < usize::MAX,
    ensures
        count_matches(
            count_op_effect(count, CountOp::FetchAdd(1, MemOrder::Relaxed)).0,
            handles.update(i, handles[i] + 1),
        ),
{
    lemma_handle_total_update(handles, i, handles[i] + 1);
}

/// Law (freeing is safe): a drop takes one handle off, and the drop that
/// frees the allocation, the one that found the count at one, leaves no
/// handle at any thread.
pub proof fn lemma_drop_keeps_count(count: usize, handles: Seq<nat>, i: int)
    requires
        count_matches(count, handles),
        0 <= i < handles.len(),
        handles[i] > 0,
    ensures
        ({
            let (c2, previous) = count_op_effect(count, CountOp::FetchSub(1, MemOrder::Release));
            let h2 = handles.update(i, (handles[i] - 1) as nat);
            &&& count_matches(c2, h2)
            &&& previous == 1 ==> forall|k: int| 0 <= k < h2.len() ==> #[trigger] h2[k] == 0
        }),
{
    let h2 = handles.update(i, (handles[i] - 1) as nat);
    lemma_handle_total_update(handles, i, (handles[i] - 1) as nat);
    lemma_handle_total_part(handles, i);
    if count == 1 {
        assert forall|k: int| 0 <= k < h2.len() implies #[trigger] h2[k] == 0 by {
            lemma_handle_total_part(h2, k);
        }
    }
}

/// Law (unwrapping is safe): an unwrap by a thread that holds a handle takes
/// the value exactly when that handle is the only one anywhere.
pub proof fn lemma_try_unwrap_only_for_sole_handle(count: usize, handles: Seq<nat>, i: int)
    requires
        count_matches(count, handles),
        0 <= i < handles.len(),
        handles[i] > 0,
    ensures
        ({
            let previous = count_op_effect(
                count,
                CountOp::CompareExchange(1, 0, MemOrder::Release, MemOrder::Relaxed),
            ).1;
            (previous == 1) == (handles[i] == 1 && forall|k: int|
                0 <= k < handles.len() && k != i ==> #[trigger] handles[k] == 0)
        }),
{
    let h2 = handles.update(i, 0);
    lemma_handle_total_update(handles, i, 0);
    lemma_handle_total_part(handles, i);
    if count == 1 {
        assert forall|k: int| 0 <= k < handles.len() && k != i implies #[trigger] handles[k]
            == 0 by {
            lemma_handle_total_part(h2, k);
        }
    }
    if handles[i] == 1 && forall|k: int| 0 <= k < handles.len() && k != i ==> #[trigger] handles[k]
        == 0 {
        lemma_handle_total_zero(h2);
    }
}

proof fn lemma_handle_total_zero(handles: Seq<nat>)
    requires
        forall|k: int| 0 <= k < handles.len() ==> #[trigger] handles[k] == 0,
    ensures
        handle_total(handles) == 0,
    decreases handles.len(),
{
    if handles.len() > 0 {
        lemma_handle_total_zero(handles.drop_last());
    }
}

} // verus!

verus! {

/// An allocation and the threads that hold handles on it: the count, the
/// handles of each thread, and how many times the value has left the
/// allocation (moved out by an unwrap, or freed by the last drop).
pub struct ArcSystem {
    pub count: usize,
    pub handles: Seq<nat>,
    pub released: nat,
}

/// What one thread does next with one of its handles.
pub enum ArcEvent {
    Clone,
    Drop,
    TryUnwrap,
}

/// A new allocation whose one handle thread `owner` of `n` holds.
pub open spec fn arc_initial(n: nat, owner: int) -> ArcSystem {
    ArcSystem {
        count: 1,
        handles: Seq::new(n, |i: int| if i == owner { 1nat } else { 0nat }),
        released: 0,
    }
}

/// The system after thread `tid` does `e`; a thread without a handle can do
/// nothing.
pub open spec fn arc_apply(s: ArcSystem, tid: int, e: ArcEvent) -> ArcSystem {
    if !(0 <= tid < s.handles.len()) || s.handles[tid] == 0 {
        s
    } else {
        match e {
            ArcEvent::Clone => ArcSystem {
                count: count_op_effect(s.count, CountOp::FetchAdd(1, MemOrder::Relaxed)).0,
                handles: s.handles.update(tid, s.handles[tid] + 1),
                ..s
            },
            ArcEvent::Drop => {
                let (c2, previous) = count_op_effect(
                    s.count,
                    CountOp::FetchSub(1, MemOrder::Release),
                );
                ArcSystem {
                    count: c2,
                    handles: s.handles.update(tid, (s.handles[tid] - 1) as nat),
                    released: if previous == 1 {
                        s.released + 1
                    } else {
                        s.released
                    },
                }
            },
            ArcEvent::TryUnwrap => {
                let (c2, previous) = count_op_effect(
                    s.count,
                    CountOp::CompareExchange(1, 0, MemOrder::Release, MemOrder::Relaxed),
                );
                if previous == 1 {
                    ArcSystem {
                        count: c2,
                        handles: s.handles.update(tid, (s.handles[tid] - 1) as nat),
                        released: s.released + 1,
                    }
                } else {
                    s
                }
            },
        }
    }
}

/// The system after the events, in order, each by the thread it names.
pub open spec fn arc_run(s: ArcSystem, events: Seq<(int, ArcEvent)>) -> ArcSystem
    decreases events.len(),
{
    if events.len() == 0 {
        s
    } else {
        arc_run(arc_apply(s, events[0].0, events[0].1), events.drop_first())
    }
}

/// The count is the number of handles, and the value has left the
/// allocation at most once, exactly when no handle is left.
pub open spec fn arc_sound(s: ArcSystem) -> bool {
    &&& count_matches(s.count, s.handles)
    &&& s.released <= 1
    &&& (s.released == 1) == (s.count == 0)
}

proof fn lemma_arc_apply_keeps(s: ArcSystem, tid: int, e: ArcEvent)
    requires
        arc_sound(s),
        s.count < usize::MAX,
    ensures
        arc_sound(arc_apply(s, tid, e)),
        arc_apply(s, tid, e).count <= s.count + 1,
{
    if 0 <= tid < s.handles.len() && s.handles[tid] > 0 {
        lemma_handle_total_part(s.handles, tid);
        match e {
            ArcEvent::Clone => {
                lemma_clone_keeps_count(s.count, s.handles, tid);
            },
            ArcEvent::Drop => {
                lemma_drop_keeps_count(s.count, s.handles, tid);
            },
            ArcEvent::TryUnwrap => {
                lemma_try_unwrap_only_for_sole_handle(s.count, s.handles, tid);
                if s.count == 1 {
                    let h2 = s.handles.update(tid, (s.handles[tid] - 1) as nat);
                    assert forall|k: int| 0 <= k < h2.len() implies #[trigger] h2[k] == 0 by {
                        if k != tid {
                            assert(s.handles[k] == 0);
                        }
                    }
                    lemma_handle_total_zero(h2);
                }
            },
        }
    }
}

proof fn lemma_arc_run_keeps(s: ArcSystem, events: Seq<(int, ArcEvent)>)
    requires
        arc_sound(s),
        s.count + events.len() < usize::MAX,
    ensures
        arc_sound(arc_run(s, events)),
    decreases events.len(),
{
    if events.len() > 0 {
        lemma_arc_apply_keeps(s, events[0].0, events[0].1);
        lemma_arc_run_keeps(arc_apply(s, events[0].0, events[0].1), events.drop_first());
    }
}

/// Law (whole runs): from a new allocation whose one handle a thread holds,
/// after any run of fewer than `usize::MAX - 1` clones, drops and unwraps,
/// the count is the number of handles the threads hold, and the value has
/// left the allocation, moved out by an unwrap or freed by the last drop,
/// at most once, and exactly when no handle is left.
pub proof fn lemma_arc_run_sound(n: nat, owner: int, events: Seq<(int, ArcEvent)>)
    requires
        0 <= owner < n,
        events.len() + 1 < usize::MAX,
    ensures
        arc_sound(arc_run(arc_initial(n, owner), events)),
{
    let s0 = arc_initial(n, owner);
    let z = s0.handles.update(owner, 0);
    assert forall|k: int| 0 <= k < z.len() implies #[trigger] z[k] == 0 by {}
    lemma_handle_total_zero(z);
    lemma_handle_total_update(s0.handles, owner, 0);
    lemma_arc_run_keeps(s0, events);
}

} // verus!

verus! {

/// Law (an unwrap loop gets the value once the other handle is dropped):
/// while threads `a` and `b` hold the only two handles, an unwrap by `a`
/// fails and changes nothing; once `b` drops its handle, the next unwrap by
/// `a` moves the value out, and no handle is left.
pub proof fn lemma_unwrap_succeeds_after_other_drop(s: ArcSystem, a: int, b: int)
    requires
        arc_sound(s),
        0 <= a < s.handles.len(),
        0 <= b < s.handles.len(),
        a != b,
        s.handles[a] == 1,
        s.handles[b] == 1,
        forall|k: int| 0 <= k < s.handles.len() && k != a && k != b ==> #[trigger] s.handles[k] == 0,
    ensures
        arc_apply(s, a, ArcEvent::TryUnwrap) == s,
        ({
            let s2 = arc_run(s, seq![(b, ArcEvent::Drop), (a, ArcEvent::TryUnwrap)]);
            &&& s2.released == 1
            &&& s2.count == 0
            &&& forall|k: int| 0 <= k < s2.handles.len() ==> #[trigger] s2.handles[k] == 0
        }),
{
    lemma_try_unwrap_only_for_sole_handle(s.count, s.handles, a);
    let events = seq![(b, ArcEvent::Drop), (a, ArcEvent::TryUnwrap)];
    lemma_handle_total_part(s.handles, a);
    lemma_handle_total_part(s.handles, b);
    lemma_drop_keeps_count(s.count, s.handles, b);
    let s1 = arc_apply(s, b, ArcEvent::Drop);
    assert(s1.handles[a] == 1);
    assert forall|k: int| 0 <= k < s1.handles.len() && k != a implies #[trigger] s1.handles[k] == 0 by {
        if k != b {
            assert(s.handles[k] == 0);
        }
    }
    lemma_try_unwrap_only_for_sole_handle(s1.count, s1.handles, a);
    lemma_arc_apply_keeps(s1, a, ArcEvent::TryUnwrap);
    let s2 = arc_apply(s1, a, ArcEvent::TryUnwrap);
    assert forall|k: int| 0 <= k < s2.handles.len() implies #[trigger] s2.handles[k] == 0 by {
        if k != a {
            assert(s1.handles[k] == 0);
        }
    }
    assert(events.drop_first() =~= seq![(a, ArcEvent::TryUnwrap)]);
    assert(events.drop_first().drop_first() =~= Seq::<(int, ArcEvent)>::empty());
    assert(arc_run(s2, events.drop_first().drop_first()) == s2);
    assert(arc_run(s1, events.drop_first()) == arc_run(s2, events.drop_first().drop_first()));
}

} // verus!
