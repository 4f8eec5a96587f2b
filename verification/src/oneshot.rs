//! A channel that carries a single value from one sender to one receiver.
use crate::word::{apply_flag_op, FlagOp, MemOrder};
use std::marker::PhantomData;
use vstd::prelude::*;

verus! {

/// The instruction that publishes the value once it is written.
pub fn send_op() -> (r: FlagOp)
    ensures
        r == FlagOp::Store(true, MemOrder::Release),
{
    FlagOp::Store(true, MemOrder::Release)
}

/// The instruction that claims a published value: swap the flag clear.
pub fn receive_op() -> (r: FlagOp)
    ensures
        r == FlagOp::Swap(false, MemOrder::Acquire),
{
    FlagOp::Swap(false, MemOrder::Acquire)
}

/// The shared state of a one-shot channel: the slot for the value and the
/// flag that says it has been published and not yet received.
pub struct Channel<T> {
    data: Option<T>,
    ready: bool,
}

/// The sending end; sending consumes it, so at most one value is sent.
pub struct Sender<T> {
    marker: PhantomData<T>,
}

/// The receiving end.
pub struct Receiver<T> {
    marker: PhantomData<T>,
}

impl<T> Channel<T> {
    /// The slot.
    pub closed spec fn data(&self) -> Option<T> {
        self.data
    }

    /// Whether a value has been published and not yet received.
    pub closed spec fn ready(&self) -> bool {
        self.ready
    }

    /// Whether a value has been published and not yet received.
    pub fn is_ready(&self) -> (r: bool)
        ensures
            r == self.ready(),
    {
        self.ready
    }

    /// A published value is in the slot.
    pub closed spec fn wf(&self) -> bool {
        self.ready ==> self.data is Some
    }
}

/// A new channel with nothing sent, and its two ends.
pub fn channel<T>() -> (r: (Sender<T>, Receiver<T>, Channel<T>))
    ensures
        r.2.wf(),
        r.2.data() is None,
        !r.2.ready(),
{
    (
        Sender { marker: PhantomData },
        Receiver { marker: PhantomData },
        Channel { data: None, ready: false },
    )
}

impl<T> Sender<T> {
    /// Writes `data` into the slot, then publishes it.
    pub fn send(self, channel: &mut Channel<T>, data: T)
        ensures
            final(channel).wf(),
            final(channel).data() == Some(data),
            final(channel).ready(),
    {
        channel.data = Some(data);
        apply_flag_op(&mut channel.ready, send_op());
    }
}

impl<T> Receiver<T> {
    /// Claims the published value, if there is one: the value moves out of
    /// the slot and the flag is cleared, so it is received only once.
    pub fn receive(&self, channel: &mut Channel<T>) -> (r: Option<T>)
        requires
            old(channel).wf(),
        ensures
            final(channel).wf(),
            !final(channel).ready(),
            old(channel).ready() ==> r == old(channel).data() && final(channel).data() is None,
            !old(channel).ready() ==> r is None && final(channel).data() == old(channel).data(),
    {
        let previous = apply_flag_op(&mut channel.ready, receive_op());
        if previous {
            channel.data.take()
        } else {
            None
        }
    }
}

/// The slot and flag after a send of `v`.
pub open spec fn sent<T>(state: (Option<T>, bool), v: T) -> (Option<T>, bool) {
    (Some(v), true)
}

/// What a receive returns on `state`, and the slot and flag after it.
pub open spec fn received<T>(state: (Option<T>, bool)) -> (Option<T>, (Option<T>, bool)) {
    if state.1 {
        (state.0, (None, false))
    } else {
        (None, (state.0, false))
    }
}

/// Law: a receive before the send finds nothing; the first receive after
/// the send gets the value sent, and every later one finds nothing.
pub proof fn lemma_sent_value_received_once<T>(v: T)
    ensures
        received::<T>((None, false)).0 is None,
        received(sent((None, false), v)).0 == Some(v),
        received(received(sent((None, false), v)).1).0 is None,
        received(received(received(sent((None, false), v)).1).1).0 is None,
{
}

} // verus!

verus! {

/// What happens next on a one-shot channel: the send of a value (the sender
/// is consumed by it, so only the first send takes effect), or a receive.
pub enum OneshotEvent<T> {
    Send(T),
    Receive,
}

/// A one-shot channel over a run: the slot and flag, the value sent if any,
/// and what each receive so far returned, in order.
pub struct OneshotSystem<T> {
    pub state: (Option<T>, bool),
    pub sent_value: Option<T>,
    pub results: Seq<Option<T>>,
}

/// The system after `e`.
pub open spec fn oneshot_apply<T>(s: OneshotSystem<T>, e: OneshotEvent<T>) -> OneshotSystem<T> {
    match e {
        OneshotEvent::Send(v) => if s.sent_value is None {
            OneshotSystem { state: sent(s.state, v), sent_value: Some(v), ..s }
        } else {
            s
        },
        OneshotEvent::Receive => {
            let (r, state2) = received(s.state);
            OneshotSystem { state: state2, results: s.results.push(r), ..s }
        },
    }
}

/// The system after the events, in order.
pub open spec fn oneshot_run<T>(s: OneshotSystem<T>, events: Seq<OneshotEvent<T>>) -> OneshotSystem<T>
    decreases events.len(),
{
    if events.len() == 0 {
        s
    } else {
        oneshot_run(oneshot_apply(s, events[0]), events.drop_first())
    }
}

/// How many receives returned a value.
pub open spec fn values_received<T>(results: Seq<Option<T>>) -> nat
    decreases results.len(),
{
    if results.len() == 0 {
        0
    } else {
        values_received(results.drop_last()) + if results.last() is Some {
            1nat
        } else {
            0nat
        }
    }
}

/// The value is published and unclaimed, or claimed by exactly one receive,
/// or not sent yet; a receive returns nothing but the value sent.
pub open spec fn oneshot_ok<T>(s: OneshotSystem<T>) -> bool {
    &&& forall|i: int| 0 <= i < s.results.len() && (#[trigger] s.results[i]) is Some ==> s.results[i]
        == s.sent_value
    &&& s.state.1 ==> s.state.0 == s.sent_value && s.sent_value is Some && values_received(
        s.results,
    ) == 0
    &&& !s.state.1 && s.sent_value is Some ==> values_received(s.results) == 1
    &&& s.sent_value is None ==> values_received(s.results) == 0
}

proof fn lemma_oneshot_run_keeps<T>(s: OneshotSystem<T>, events: Seq<OneshotEvent<T>>)
    requires
        oneshot_ok(s),
    ensures
        oneshot_ok(oneshot_run(s, events)),
    decreases events.len(),
{
    if events.len() > 0 {
        let s2 = oneshot_apply(s, events[0]);
        if events[0] is Receive {
            assert(s2.results.drop_last() =~= s.results);
            assert forall|i: int| 0 <= i < s2.results.len() && (#[trigger] s2.results[i]) is Some implies s2.results[i]
                == s2.sent_value by {
                if i < s.results.len() {
                    assert(s2.results[i] == s.results[i]);
                }
            }
        }
        lemma_oneshot_run_keeps(s2, events.drop_first());
    }
}

/// Law (the value is received exactly once, over whole runs): from a new
/// channel, after any sends and receives, every receive that returned a
/// value returned the value sent; no receive returned one before the send;
/// and once the flag is clear after the send, exactly one receive has
/// returned the value.
pub proof fn lemma_oneshot_run_delivers_once<T>(events: Seq<OneshotEvent<T>>)
    ensures
        ({
            let s = oneshot_run(
                OneshotSystem { state: (None, false), sent_value: None, results: Seq::empty() },
                events,
            );
            &&& forall|i: int| 0 <= i < s.results.len() && (#[trigger] s.results[i]) is Some ==> s.results[i]
                == s.sent_value
            &&& s.sent_value is None ==> values_received(s.results) == 0
            &&& s.sent_value is Some && !s.state.1 ==> values_received(s.results) == 1
            &&& s.sent_value is Some && s.state.1 ==> values_received(s.results) == 0
        }),
{
    lemma_oneshot_run_keeps(
        OneshotSystem { state: (None, false), sent_value: None, results: Seq::empty() },
        events,
    );
}

} // verus!
