//! A multi-producer multi-consumer channel over a `Queue`, with counts of
//! the live senders and receivers.
//!
//! `send_step` and `receive_phase_step` take one instruction at a time,
//! those of the queue included; `send`, `receive_step` and `receive` run a
//! whole send, or a whole attempt to receive, with no other thread
//! interleaved. A receive can report the channel closed while an item is
//! queued: a send and the last sender's drop may land between its empty
//! dequeue and its load of the count of senders.
use crate::queue::{
    carried_items, claimed_node, dequeue_phase_ok, dequeue_transition, enqueue_phase_ok,
    enqueue_transition, lemma_dequeue_step_keeps_system, lemma_enqueue_step_keeps_system,
    lemma_queue_apply_keeps, lemma_queue_idle_accounts, lemma_queue_run_accounts, queue_accounted, queue_apply,
    queue_initial, queue_system_ok, won_items, DequeuePhase, EnqueuePhase, Queue, QueueEvent,
    QueueModel, QueueSystem, DEQUEUE_INITIAL_BACKOFF_NANOS, INITIAL_BACKOFF_NANOS,
};
use crate::word::{apply_count_op, CountOp, MemOrder};
use std::marker::PhantomData;
use vstd::prelude::*;

verus! {

/// The shared state of a channel: the queue of items sent and not yet
/// received, and the numbers of live senders and receivers.
pub struct Channel<T> {
    queue: Queue<T>,
    sender_count: usize,
    receiver_count: usize,
}

/// A sending end.
pub struct Sender<T> {
    marker: PhantomData<T>,
}

/// A receiving end.
pub struct Receiver<T> {
    marker: PhantomData<T>,
}

/// A send found no receiver left.
#[derive(Debug, PartialEq, Eq, Structural)]
pub struct SendError;

/// A receive failed.
#[derive(Debug, PartialEq, Eq, Structural)]
pub struct ReceiveError;

/// The outcome of one attempt to receive.
pub enum ReceivePoll<T> {
    /// The oldest item.
    Item(T),
    /// The queue was empty and no sender was left.
    Closed,
    /// The queue was empty while senders were left; the receiver spins and
    /// tries again.
    Empty,
}

/// The instruction that reads a count of handles.
pub fn count_load_op() -> (r: CountOp)
    ensures
        r == CountOp::Load(MemOrder::Relaxed),
{
    CountOp::Load(MemOrder::Relaxed)
}

/// The instruction that a clone of a handle issues on its count.
pub fn count_clone_op() -> (r: CountOp)
    ensures
        r == CountOp::FetchAdd(1, MemOrder::Relaxed),
{
    CountOp::FetchAdd(1, MemOrder::Relaxed)
}

/// The instruction that dropping a handle issues on its count.
pub fn count_drop_op() -> (r: CountOp)
    ensures
        r == CountOp::FetchSub(1, MemOrder::Relaxed),
{
    CountOp::FetchSub(1, MemOrder::Relaxed)
}

/// Where a send of `item` goes after loading the count of receivers: it
/// fails when none is left, and otherwise starts to enqueue the item.
pub open spec fn spec_send_after_check<T>(item: T, receivers: usize) -> SendPhase<T> {
    if receivers == 0 {
        SendPhase::Done(Err(SendError))
    } else {
        SendPhase::Enqueue(EnqueuePhase::ReadTail { item, backoff: INITIAL_BACKOFF_NANOS })
    }
}

/// Where a send of `item` goes after loading the count of receivers.
pub fn send_after_check<T>(item: T, receivers: usize) -> (r: SendPhase<T>)
    ensures
        r == spec_send_after_check(item, receivers),
{
    if receivers == 0 {
        SendPhase::Done(Err(SendError))
    } else {
        SendPhase::Enqueue(EnqueuePhase::ReadTail { item, backoff: INITIAL_BACKOFF_NANOS })
    }
}

/// What an attempt to receive reports after finding the queue empty and
/// loading the count of senders: closed when none is left.
pub fn poll_after_empty<T>(senders: usize) -> (r: ReceivePoll<T>)
    ensures
        r == (if senders == 0 {
            ReceivePoll::<T>::Closed
        } else {
            ReceivePoll::<T>::Empty
        }),
{
    if senders == 0 {
        ReceivePoll::Closed
    } else {
        ReceivePoll::Empty
    }
}

impl<T> Channel<T> {
    /// The items sent and not yet received, oldest first.
    pub closed spec fn items(&self) -> Seq<T> {
        self.queue@
    }

    /// The number of live senders.
    pub closed spec fn sender_count(&self) -> usize {
        self.sender_count
    }

    /// The number of live receivers.
    pub closed spec fn receiver_count(&self) -> usize {
        self.receiver_count
    }

    /// The number of live senders.
    pub fn senders(&self) -> (r: usize)
        ensures
            r == self.sender_count(),
    {
        self.sender_count
    }

    /// The number of live receivers.
    pub fn receivers(&self) -> (r: usize)
        ensures
            r == self.receiver_count(),
    {
        self.receiver_count
    }

    /// The number of items sent and not yet received.
    pub fn len(&self) -> (r: usize)
        requires
            self.wf(),
        ensures
            r == self.items().len(),
    {
        self.queue.len()
    }

    /// The abstract state of the queue.
    pub closed spec fn queue_model(&self) -> QueueModel<T> {
        self.queue.model()
    }

    /// The queue is well formed.
    pub closed spec fn wf(&self) -> bool {
        &&& self.queue.wf()
    }

    /// The number of queue nodes ever linked; each send links one.
    pub closed spec fn nodes(&self) -> nat {
        self.queue.model().items.len()
    }
}

/// A new channel with one sender and one receiver, and nothing queued.
pub fn channel<T>() -> (r: (Sender<T>, Receiver<T>, Channel<T>))
    ensures
        r.2.wf(),
        r.2.nodes() == 1,
        r.2.items() == Seq::<T>::empty(),
        r.2.sender_count() == 1,
        r.2.receiver_count() == 1,
{
    let channel = Channel { queue: Queue::new(), sender_count: 1, receiver_count: 1 };
    (Sender { marker: PhantomData }, Receiver { marker: PhantomData }, channel)
}

impl<T> Sender<T> {
    /// Queues `data` unless no receiver is left, in which case it fails.
    pub fn send(&self, channel: &mut Channel<T>, data: T) -> (r: Result<(), SendError>)
        requires
            old(channel).wf(),
            old(channel).nodes() < usize::MAX,
        ensures
            final(channel).wf(),
            final(channel).sender_count() == old(channel).sender_count(),
            final(channel).receiver_count() == old(channel).receiver_count(),
            r is Err == (old(channel).receiver_count() == 0),
            r is Err ==> final(channel).items() == old(channel).items() && final(channel).nodes()
                == old(channel).nodes(),
            r is Ok ==> final(channel).nodes() == old(channel).nodes() + 1,
            r is Ok ==> final(channel).items() == old(channel).items().push(data),
    {
        let receivers = apply_count_op(&mut channel.receiver_count, count_load_op());
        match send_after_check(data, receivers) {
            SendPhase::Enqueue(EnqueuePhase::ReadTail { item, .. }) => {
                channel.queue.enqueue(item);
                Ok(())
            },
            _ => Err(SendError),
        }
    }

    /// Another sender on the same channel. (The count cannot reach
    /// `usize::MAX`: there is not memory for as many senders.)
    pub fn clone_handle(&self, channel: &mut Channel<T>) -> (r: Sender<T>)
        requires
            old(channel).sender_count() < usize::MAX,
        ensures
            final(channel).sender_count() == old(channel).sender_count() + 1,
            final(channel).receiver_count() == old(channel).receiver_count(),
            final(channel).items() == old(channel).items(),
            final(channel).wf() == old(channel).wf(),
            final(channel).nodes() == old(channel).nodes(),
    {
        apply_count_op(&mut channel.sender_count, count_clone_op());
        Sender { marker: PhantomData }
    }

    /// Drops this sender.
    pub fn drop_handle(self, channel: &mut Channel<T>)
        requires
            old(channel).sender_count() > 0,
        ensures
            final(channel).sender_count() == old(channel).sender_count() - 1,
            final(channel).receiver_count() == old(channel).receiver_count(),
            final(channel).items() == old(channel).items(),
            final(channel).wf() == old(channel).wf(),
            final(channel).nodes() == old(channel).nodes(),
    {
        apply_count_op(&mut channel.sender_count, count_drop_op());
    }
}

impl<T> Receiver<T> {
    /// One attempt to receive: dequeues the oldest item; when there is none,
    /// reports whether a sender is left.
    pub fn receive_step(&self, channel: &mut Channel<T>) -> (r: ReceivePoll<T>)
        requires
            old(channel).wf(),
        ensures
            final(channel).wf(),
            final(channel).nodes() == old(channel).nodes(),
            final(channel).sender_count() == old(channel).sender_count(),
            final(channel).receiver_count() == old(channel).receiver_count(),
            old(channel).items().len() > 0 ==> {
                &&& r == ReceivePoll::Item(old(channel).items()[0])
                &&& final(channel).items() == old(channel).items().drop_first()
            },
            old(channel).items().len() == 0 ==> {
                &&& final(channel).items() == old(channel).items()
                &&& r == if old(channel).sender_count() == 0 {
                    ReceivePoll::<T>::Closed
                } else {
                    ReceivePoll::<T>::Empty
                }
            },
    {
        match channel.queue.dequeue() {
            Some(item) => ReceivePoll::Item(item),
            None => {
                let senders = apply_count_op(&mut channel.sender_count, count_load_op());
                poll_after_empty(senders)
            },
        }
    }

    /// Receives the oldest item, or `None` when the channel is empty and
    /// no sender is left. (On an empty channel with senders left, a receiver
    /// spins until an item or the last drop of a sender arrives; see
    /// `receive_step`.)
    pub fn receive(&self, channel: &mut Channel<T>) -> (r: Option<T>)
        requires
            old(channel).wf(),
            old(channel).items().len() > 0 || old(channel).sender_count() == 0,
        ensures
            final(channel).wf(),
            final(channel).nodes() == old(channel).nodes(),
            final(channel).sender_count() == old(channel).sender_count(),
            final(channel).receiver_count() == old(channel).receiver_count(),
            old(channel).items().len() > 0 ==> {
                &&& r == Some(old(channel).items()[0])
                &&& final(channel).items() == old(channel).items().drop_first()
            },
            old(channel).items().len() == 0 ==> r is None && final(channel).items() == old(channel).items(),
    {
        match self.receive_step(channel) {
            ReceivePoll::Item(item) => Some(item),
            _ => None,
        }
    }

    /// Another receiver on the same channel. (The count cannot reach
    /// `usize::MAX`: there is not memory for as many receivers.)
    pub fn clone_handle(&self, channel: &mut Channel<T>) -> (r: Receiver<T>)
        requires
            old(channel).receiver_count() < usize::MAX,
        ensures
            final(channel).receiver_count() == old(channel).receiver_count() + 1,
            final(channel).sender_count() == old(channel).sender_count(),
            final(channel).items() == old(channel).items(),
            final(channel).wf() == old(channel).wf(),
            final(channel).nodes() == old(channel).nodes(),
    {
        apply_count_op(&mut channel.receiver_count, count_clone_op());
        Receiver { marker: PhantomData }
    }

    /// Drops this receiver.
    pub fn drop_handle(self, channel: &mut Channel<T>)
        requires
            old(channel).receiver_count() > 0,
        ensures
            final(channel).receiver_count() == old(channel).receiver_count() - 1,
            final(channel).sender_count() == old(channel).sender_count(),
            final(channel).items() == old(channel).items(),
            final(channel).wf() == old(channel).wf(),
            final(channel).nodes() == old(channel).nodes(),
    {
        apply_count_op(&mut channel.receiver_count, count_drop_op());
    }
}

} // verus!

verus! {

/// Where a thread stands inside `Sender::send`.
pub enum SendPhase<T> {
    /// About to load the count of receivers.
    Check(T),
    /// Enqueuing the item, at this phase of the enqueue.
    Enqueue(EnqueuePhase<T>),
    Done(Result<(), SendError>),
}

/// Where a thread stands inside `Receiver::receive`, in one attempt.
pub enum ReceivePhase<T> {
    /// Dequeuing, at this phase of the dequeue.
    Dequeue(DequeuePhase<T>),
    /// Found the queue empty; about to load the count of senders.
    CheckSenders,
    Done(ReceivePoll<T>),
}

/// The queue after the sender at `phase` takes its next instruction on a
/// channel with `receivers` receivers, and the sender's next phase.
pub open spec fn send_transition<T>(m: QueueModel<T>, receivers: usize, phase: SendPhase<T>) -> (
    QueueModel<T>,
    SendPhase<T>,
) {
    match phase {
        SendPhase::Check(x) => (m, spec_send_after_check(x, receivers)),
        SendPhase::Enqueue(e) => {
            let (m2, e2) = enqueue_transition(m, e);
            (m2, if e2 is Done {
                SendPhase::Done(Ok(()))
            } else {
                SendPhase::Enqueue(e2)
            })
        },
        SendPhase::Done(r) => (m, SendPhase::Done(r)),
    }
}

/// The queue after the receiver at `phase` takes its next instruction on a
/// channel with `senders` senders, and the receiver's next phase.
pub open spec fn receive_transition<T>(m: QueueModel<T>, senders: usize, phase: ReceivePhase<T>) -> (
    QueueModel<T>,
    ReceivePhase<T>,
) {
    match phase {
        ReceivePhase::Dequeue(d) => {
            let (m2, d2) = dequeue_transition(m, d);
            (m2, match d2 {
                DequeuePhase::Done(Some(x)) => ReceivePhase::Done(ReceivePoll::Item(x)),
                DequeuePhase::Done(None) => ReceivePhase::CheckSenders,
                _ => ReceivePhase::Dequeue(d2),
            })
        },
        ReceivePhase::CheckSenders => (
            m,
            ReceivePhase::Done(
                if senders == 0 {
                    ReceivePoll::Closed
                } else {
                    ReceivePoll::Empty
                },
            ),
        ),
        ReceivePhase::Done(r) => (m, ReceivePhase::Done(r)),
    }
}

/// The enqueue a sender at `phase` is in, if any.
pub open spec fn send_as_enqueue<T>(phase: SendPhase<T>) -> EnqueuePhase<T> {
    match phase {
        SendPhase::Enqueue(e) => e,
        _ => EnqueuePhase::Done,
    }
}

/// The dequeue a receiver at `phase` is in, or the one it finished.
pub open spec fn receive_as_dequeue<T>(phase: ReceivePhase<T>) -> DequeuePhase<T> {
    match phase {
        ReceivePhase::Dequeue(d) => d,
        ReceivePhase::Done(ReceivePoll::Item(x)) => DequeuePhase::Done(Some(x)),
        _ => DequeuePhase::Done(None),
    }
}

impl<T> Sender<T> {
    /// Takes the next instruction of a sender at `phase`.
    pub fn send_step(&self, channel: &mut Channel<T>, phase: SendPhase<T>) -> (r: SendPhase<T>)
        requires
            old(channel).wf(),
            enqueue_phase_ok(send_as_enqueue(phase), old(channel).queue_model().items.len()),
            send_as_enqueue(phase) is Link ==> old(channel).queue_model().items.len() < usize::MAX,
        ensures
            final(channel).wf(),
            final(channel).sender_count() == old(channel).sender_count(),
            final(channel).receiver_count() == old(channel).receiver_count(),
            (final(channel).queue_model(), r) == send_transition(
                old(channel).queue_model(),
                old(channel).receiver_count(),
                phase,
            ),
    {
        match phase {
            SendPhase::Check(x) => {
                let receivers = apply_count_op(&mut channel.receiver_count, count_load_op());
                send_after_check(x, receivers)
            },
            SendPhase::Enqueue(e) => {
                let e2 = channel.queue.enqueue_step(e);
                if e2.is_done() {
                    SendPhase::Done(Ok(()))
                } else {
                    SendPhase::Enqueue(e2)
                }
            },
            SendPhase::Done(r) => SendPhase::Done(r),
        }
    }
}

impl<T> Receiver<T> {
    /// Takes the next instruction of a receiver at `phase`.
    pub fn receive_phase_step(&self, channel: &mut Channel<T>, phase: ReceivePhase<T>) -> (r:
        ReceivePhase<T>)
        requires
            old(channel).wf(),
            dequeue_phase_ok(receive_as_dequeue(phase), old(channel).queue_model().items.len()),
            receive_as_dequeue(phase) matches DequeuePhase::Take { node } ==> node <= old(
                channel,
            ).queue_model().head,
        ensures
            final(channel).wf(),
            final(channel).sender_count() == old(channel).sender_count(),
            final(channel).receiver_count() == old(channel).receiver_count(),
            (final(channel).queue_model(), r) == receive_transition(
                old(channel).queue_model(),
                old(channel).sender_count(),
                phase,
            ),
    {
        match phase {
            ReceivePhase::Dequeue(d) => {
                let d2 = channel.queue.dequeue_step(d);
                match d2 {
                    DequeuePhase::Done(Some(x)) => ReceivePhase::Done(ReceivePoll::Item(x)),
                    DequeuePhase::Done(None) => ReceivePhase::CheckSenders,
                    _ => ReceivePhase::Dequeue(d2),
                }
            },
            ReceivePhase::CheckSenders => {
                let senders = apply_count_op(&mut channel.sender_count, count_load_op());
                ReceivePhase::Done(poll_after_empty(senders))
            },
            ReceivePhase::Done(r) => ReceivePhase::Done(r),
        }
    }
}

/// The queue under a channel, with the senders at `sends` and the receivers
/// at `receives`, is a well-formed queue system: each sender counts as the
/// enqueue it is in and each receiver as the dequeue it is in.
pub open spec fn channel_system_ok<T>(
    m: QueueModel<T>,
    sends: Seq<SendPhase<T>>,
    receives: Seq<ReceivePhase<T>>,
) -> bool {
    queue_system_ok(
        m,
        sends.map_values(|p: SendPhase<T>| send_as_enqueue(p)),
        receives.map_values(|p: ReceivePhase<T>| receive_as_dequeue(p)),
    )
}

/// Law: an instruction of any sender keeps the channel's queue system well
/// formed; it changes the items only by appending its own item, once, when
/// it links it, and it fails only when it found no receiver.
pub proof fn lemma_send_step_keeps_channel<T>(
    m: QueueModel<T>,
    receivers: usize,
    sends: Seq<SendPhase<T>>,
    receives: Seq<ReceivePhase<T>>,
    i: int,
)
    requires
        channel_system_ok(m, sends, receives),
        0 <= i < sends.len(),
        !(sends[i] is Done),
        m.items.len() < usize::MAX,
    ensures
        ({
            let (m2, p2) = send_transition(m, receivers, sends[i]);
            &&& channel_system_ok(m2, sends.update(i, p2), receives)
            &&& m2.contents() == m.contents() || (send_as_enqueue(sends[i]) matches EnqueuePhase::Link {
                item,
                ..
            } && m2.contents() == m.contents().push(item))
            &&& p2 matches SendPhase::Done(Err(_)) ==> (sends[i] is Check && receivers == 0)
        }),
{
    let enq = sends.map_values(|p: SendPhase<T>| send_as_enqueue(p));
    let deq = receives.map_values(|p: ReceivePhase<T>| receive_as_dequeue(p));
    let (m2, p2) = send_transition(m, receivers, sends[i]);
    let s2 = sends.update(i, p2);
    let enq2 = s2.map_values(|p: SendPhase<T>| send_as_enqueue(p));
    if sends[i] is Enqueue {
        lemma_enqueue_step_keeps_system(m, enq, deq, i);
        assert(enq[i] == send_as_enqueue(sends[i]));
        assert(send_as_enqueue(p2) == enqueue_transition(m, enq[i]).1);
        assert(enq2 =~= enq.update(i, enqueue_transition(m, enq[i]).1));
    } else {
        assert(enq2 =~= enq.update(i, send_as_enqueue(p2)));
        assert(m2 == m);
        assert forall|k: int| 0 <= k < enq2.len() implies enqueue_phase_ok(
            #[trigger] enq2[k],
            m.items.len(),
        ) by {
            if k != i {
                assert(enq2[k] == enq[k]);
            }
        }
    }
}

/// Law: an instruction of any receiver keeps the channel's queue system
/// well formed; it changes the items only by removing the oldest one when it
/// wins the head, and it reports the channel closed only after it found the
/// queue empty and then loaded a sender count of zero.
pub proof fn lemma_receive_step_keeps_channel<T>(
    m: QueueModel<T>,
    senders: usize,
    sends: Seq<SendPhase<T>>,
    receives: Seq<ReceivePhase<T>>,
    i: int,
)
    requires
        channel_system_ok(m, sends, receives),
        0 <= i < receives.len(),
        !(receives[i] is Done),
        !(receives[i] matches ReceivePhase::Dequeue(DequeuePhase::Done(_))),
    ensures
        ({
            let (m2, p2) = receive_transition(m, senders, receives[i]);
            &&& channel_system_ok(m2, sends, receives.update(i, p2))
            &&& m2.contents() == m.contents() || m2.contents() == m.contents().drop_first()
            &&& p2 matches ReceivePhase::Done(ReceivePoll::Closed) ==> (receives[i] is CheckSenders
                && senders == 0)
            &&& p2 is CheckSenders ==> (receives[i] matches ReceivePhase::Dequeue(
                DequeuePhase::ReadNext { head, .. },
            ) && head == m.last())
        }),
{
    let enq = sends.map_values(|p: SendPhase<T>| send_as_enqueue(p));
    let deq = receives.map_values(|p: ReceivePhase<T>| receive_as_dequeue(p));
    let (m2, p2) = receive_transition(m, senders, receives[i]);
    let r2 = receives.update(i, p2);
    let deq2 = r2.map_values(|p: ReceivePhase<T>| receive_as_dequeue(p));
    if receives[i] is Dequeue {
        lemma_dequeue_step_keeps_system(m, enq, deq, i);
        assert(deq[i] == receive_as_dequeue(receives[i]));
        assert(deq2[i] == receive_as_dequeue(p2));
        assert(receive_as_dequeue(p2) == dequeue_transition(m, deq[i]).1);
        assert(deq2 =~= deq.update(i, dequeue_transition(m, deq[i]).1));
        if deq[i] is Take {
            assert(claimed_node(deq[i]) is Some);
            assert(m.items[claimed_node(deq[i])->0 as int] is Some);
        }
    } else {
        assert(deq2 =~= deq.update(i, receive_as_dequeue(p2)));
        assert(m2 == m);
        assert forall|k: int| 0 <= k < deq2.len() implies dequeue_phase_ok(
            #[trigger] deq2[k],
            m.items.len(),
        ) by {
            if k != i {
                assert(deq2[k] == deq[k]);
            }
        }
        assert forall|k: int|
            0 <= k < deq2.len() && (#[trigger] claimed_node(deq2[k])) is Some implies {
            &&& claimed_node(deq2[k])->0 <= m.head
            &&& m.items[claimed_node(deq2[k])->0 as int] is Some
        } by {
            assert(deq2[k] == deq[k]);
        }
        assert forall|a: int, b: int|
            0 <= a < deq2.len() && 0 <= b < deq2.len() && a != b && (#[trigger] claimed_node(
                deq2[a],
            )) is Some implies #[trigger] claimed_node(deq2[b]) != claimed_node(deq2[a]) by {
            assert(deq2[a] == deq[a]);
            assert(deq2[b] == deq[b] || b == i);
        }
    }
}

} // verus!

verus! {

/// A channel and the threads that use it, one instruction at a time: the
/// queue, the counts of senders and receivers, where each sending and each
/// receiving thread stands, and the history of the run: the item of every
/// send that found a receiver, and every item a receive has returned.
pub struct ChannelSystem<T> {
    pub queue: QueueModel<T>,
    pub senders: usize,
    pub receivers: usize,
    pub sends: Seq<SendPhase<T>>,
    pub receives: Seq<ReceivePhase<T>>,
    pub accepted: Seq<T>,
    pub received: Seq<T>,
}

/// What one thread does next: a sending thread (by its index among the
/// senders) starts a send or takes an instruction of it; a receiving thread
/// (by its index among the receivers) starts an attempt to receive or takes
/// an instruction of it; or a sender or receiver handle is dropped.
pub enum ChannelEvent<T> {
    StartSend(T),
    SendStep,
    StartReceive,
    ReceiveStep,
    DropSender,
    DropReceiver,
}

/// A new channel with `senders` senders and `receivers` receivers, and
/// `n_send` sending and `n_recv` receiving threads, none of them busy.
pub open spec fn channel_initial<T>(n_send: nat, n_recv: nat, senders: usize, receivers: usize) -> ChannelSystem<T> {
    ChannelSystem {
        queue: QueueModel { items: seq![None], head: 0, tail: 0 },
        senders,
        receivers,
        sends: Seq::new(n_send, |i: int| SendPhase::Done(Ok(()))),
        receives: Seq::new(n_recv, |i: int| ReceivePhase::Done(ReceivePoll::Empty)),
        accepted: Seq::empty(),
        received: Seq::empty(),
    }
}

/// The system after thread `tid` does `e`; an event the thread cannot do
/// where it stands changes nothing.
pub open spec fn channel_apply<T>(c: ChannelSystem<T>, tid: int, e: ChannelEvent<T>) -> ChannelSystem<T> {
    match e {
        ChannelEvent::StartSend(x) => if 0 <= tid < c.sends.len() && c.sends[tid] is Done {
            ChannelSystem { sends: c.sends.update(tid, SendPhase::Check(x)), ..c }
        } else {
            c
        },
        ChannelEvent::SendStep => if 0 <= tid < c.sends.len() && !(c.sends[tid] is Done) {
            let (m2, p2) = send_transition(c.queue, c.receivers, c.sends[tid]);
            ChannelSystem {
                queue: m2,
                sends: c.sends.update(tid, p2),
                accepted: match (c.sends[tid], p2) {
                    (SendPhase::Check(x), SendPhase::Enqueue(_)) => c.accepted.push(x),
                    _ => c.accepted,
                },
                ..c
            }
        } else {
            c
        },
        ChannelEvent::StartReceive => if 0 <= tid < c.receives.len() && c.receives[tid] is Done {
            ChannelSystem {
                receives: c.receives.update(
                    tid,
                    ReceivePhase::Dequeue(
                        DequeuePhase::ReadHead { backoff: DEQUEUE_INITIAL_BACKOFF_NANOS },
                    ),
                ),
                ..c
            }
        } else {
            c
        },
        ChannelEvent::ReceiveStep => if 0 <= tid < c.receives.len() && !(c.receives[tid] is Done)
            && !(c.receives[tid] matches ReceivePhase::Dequeue(DequeuePhase::Done(_))) {
            let (m2, p2) = receive_transition(c.queue, c.senders, c.receives[tid]);
            ChannelSystem {
                queue: m2,
                receives: c.receives.update(tid, p2),
                received: match p2 {
                    ReceivePhase::Done(ReceivePoll::Item(x)) => c.received.push(x),
                    _ => c.received,
                },
                ..c
            }
        } else {
            c
        },
        ChannelEvent::DropSender => if c.senders > 0 {
            ChannelSystem { senders: (c.senders - 1) as usize, ..c }
        } else {
            c
        },
        ChannelEvent::DropReceiver => if c.receivers > 0 {
            ChannelSystem { receivers: (c.receivers - 1) as usize, ..c }
        } else {
            c
        },
    }
}

/// The system after the events, in order, each by the thread it names.
pub open spec fn channel_run<T>(c: ChannelSystem<T>, events: Seq<(int, ChannelEvent<T>)>) -> ChannelSystem<T>
    decreases events.len(),
{
    if events.len() == 0 {
        c
    } else {
        channel_run(channel_apply(c, events[0].0, events[0].1), events.drop_first())
    }
}

/// The queue system under a channel system: each sender counts as the
/// enqueue it is in, each receiver as the dequeue it is in, the items of
/// sends that found a receiver as those handed to the queue, and the items
/// received as those the queue returned.
pub open spec fn channel_as_queue<T>(c: ChannelSystem<T>) -> QueueSystem<T> {
    QueueSystem {
        queue: c.queue,
        enq: c.sends.map_values(|p: SendPhase<T>| send_as_enqueue(p)),
        deq: c.receives.map_values(|p: ReceivePhase<T>| receive_as_dequeue(p)),
        submitted: c.accepted,
        delivered: c.received,
    }
}

proof fn lemma_channel_apply_is_queue_apply<T>(c: ChannelSystem<T>, tid: int, e: ChannelEvent<T>)
    requires
        queue_system_ok(
            channel_as_queue(c).queue,
            channel_as_queue(c).enq,
            channel_as_queue(c).deq,
        ),
    ensures
        channel_as_queue(channel_apply(c, tid, e)) == channel_as_queue(c) || exists|
            qe: QueueEvent<T>,
        | channel_as_queue(channel_apply(c, tid, e)) == queue_apply(channel_as_queue(c), tid, qe),
{
    let q = channel_as_queue(c);
    let c2 = channel_apply(c, tid, e);
    let q2 = channel_as_queue(c2);
    match e {
        ChannelEvent::StartSend(x) => if 0 <= tid < c.sends.len() && c.sends[tid] is Done {
            assert(q2.enq =~= q.enq);
            assert(q2 == q);
        },
        ChannelEvent::SendStep => if 0 <= tid < c.sends.len() && !(c.sends[tid] is Done) {
            match c.sends[tid] {
                SendPhase::Check(x) => {
                    if c.receivers == 0 {
                        assert(q2.enq =~= q.enq);
                        assert(q2 == q);
                    } else {
                        let qe = QueueEvent::StartEnqueue(x);
                        assert(q.enq[tid] is Done);
                        assert(q2.enq =~= queue_apply(q, tid, qe).enq);
                        assert(q2 == queue_apply(q, tid, qe));
                    }
                },
                SendPhase::Enqueue(en) => {
                    let qe = QueueEvent::<T>::EnqueueStep;
                    assert(q.enq[tid] == en);
                    if en is Done {
                        assert(q2.enq =~= q.enq);
                        assert(q2 == q);
                    } else {
                        assert(q2.enq =~= queue_apply(q, tid, qe).enq);
                        assert(q2 == queue_apply(q, tid, qe));
                    }
                },
                SendPhase::Done(_) => {},
            }
        },
        ChannelEvent::StartReceive => if 0 <= tid < c.receives.len() && c.receives[tid] is Done {
            let qe = QueueEvent::<T>::StartDequeue;
            assert(q.deq[tid] is Done);
            assert(q2.deq =~= queue_apply(q, tid, qe).deq);
            assert(q2 == queue_apply(q, tid, qe));
        },
        ChannelEvent::ReceiveStep => if 0 <= tid < c.receives.len() && !(c.receives[tid] is Done)
            && !(c.receives[tid] matches ReceivePhase::Dequeue(DequeuePhase::Done(_))) {
            match c.receives[tid] {
                ReceivePhase::Dequeue(d) => {
                    let qe = QueueEvent::<T>::DequeueStep;
                    assert(q.deq[tid] == d);
                    if d is Take {
                        assert(claimed_node(q.deq[tid]) is Some);
                        assert(q.queue.items[claimed_node(q.deq[tid])->0 as int] is Some);
                    }
                    assert(q2.deq =~= queue_apply(q, tid, qe).deq);
                    assert(q2 == queue_apply(q, tid, qe));
                },
                ReceivePhase::CheckSenders => {
                    assert(q2.deq =~= q.deq);
                    assert(q2 == q);
                },
                ReceivePhase::Done(_) => {},
            }
        },
        ChannelEvent::DropSender => {},
        ChannelEvent::DropReceiver => {},
    }
}

proof fn lemma_channel_run_keeps<T>(c: ChannelSystem<T>, events: Seq<(int, ChannelEvent<T>)>)
    requires
        queue_system_ok(
            channel_as_queue(c).queue,
            channel_as_queue(c).enq,
            channel_as_queue(c).deq,
        ),
        queue_accounted(channel_as_queue(c)),
        c.queue.items.len() + events.len() < usize::MAX,
    ensures
        ({
            let q = channel_as_queue(channel_run(c, events));
            queue_system_ok(q.queue, q.enq, q.deq) && queue_accounted(q)
        }),
    decreases events.len(),
{
    if events.len() > 0 {
        let (tid, e) = events[0];
        let c2 = channel_apply(c, tid, e);
        lemma_channel_apply_is_queue_apply(c, tid, e);
        if channel_as_queue(c2) != channel_as_queue(c) {
            let qe = choose|qe: QueueEvent<T>|
                channel_as_queue(c2) == queue_apply(channel_as_queue(c), tid, qe);
            lemma_queue_apply_keeps(channel_as_queue(c), tid, qe);
        }
        lemma_channel_run_keeps(c2, events.drop_first());
    }
}

/// Law (every accepted send is received exactly once, over whole runs):
/// from a new channel and idle sending and receiving threads, after any run
/// of fewer than `usize::MAX - 1` events, the queue stays well formed, and
/// the item of every send that found a receiver is, exactly once, still
/// carried by its sender, in the queue, in a node a receiver has won, or
/// returned by a receive. Once every thread is idle, those items are
/// exactly those queued and those received; once the queue is empty too,
/// they are exactly the items received.
pub proof fn lemma_channel_run_accounts<T>(
    n_send: nat,
    n_recv: nat,
    senders: usize,
    receivers: usize,
    events: Seq<(int, ChannelEvent<T>)>,
)
    requires
        events.len() + 1 < usize::MAX,
    ensures
        ({
            let c = channel_run(channel_initial::<T>(n_send, n_recv, senders, receivers), events);
            let q = channel_as_queue(c);
            &&& channel_system_ok(c.queue, c.sends, c.receives)
            &&& c.accepted.to_multiset() == carried_items(q.enq).add(
                c.queue.contents().to_multiset(),
            ).add(won_items(c.queue.items, q.deq)).add(c.received.to_multiset())
            &&& (forall|i: int| 0 <= i < c.sends.len() ==> (#[trigger] c.sends[i]) is Done) && (
            forall|i: int| 0 <= i < c.receives.len() ==> (#[trigger] c.receives[i]) is Done)
                ==> c.accepted.to_multiset() == c.queue.contents().to_multiset().add(
                c.received.to_multiset(),
            )
            &&& (forall|i: int| 0 <= i < c.sends.len() ==> (#[trigger] c.sends[i]) is Done) && (
            forall|i: int| 0 <= i < c.receives.len() ==> (#[trigger] c.receives[i]) is Done)
                && c.queue.contents().len() == 0 ==> c.accepted.to_multiset()
                == c.received.to_multiset()
        }),
{
    broadcast use vstd::multiset::group_multiset_axioms;
    broadcast use vstd::seq_lib::group_to_multiset_ensures;

    let c0 = channel_initial::<T>(n_send, n_recv, senders, receivers);
    let q0 = channel_as_queue(c0);
    assert(q0.enq =~= queue_initial::<T>(n_send, n_recv).enq);
    assert(q0.deq =~= queue_initial::<T>(n_send, n_recv).deq);
    assert(q0 == queue_initial::<T>(n_send, n_recv));
    lemma_queue_run_accounts::<T>(n_send, n_recv, Seq::empty());
    lemma_channel_run_keeps(c0, events);
    let c = channel_run(c0, events);
    let q = channel_as_queue(c);
    if (forall|i: int| 0 <= i < c.sends.len() ==> (#[trigger] c.sends[i]) is Done) && (forall|
        i: int,
    | 0 <= i < c.receives.len() ==> (#[trigger] c.receives[i]) is Done) {
        assert forall|i: int| 0 <= i < q.enq.len() implies (#[trigger] q.enq[i]) is Done by {
            assert(c.sends[i] is Done);
        }
        assert forall|i: int| 0 <= i < q.deq.len() implies (#[trigger] q.deq[i]) is Done by {
            assert(c.receives[i] is Done);
        }
        lemma_queue_idle_accounts(q);
        if c.queue.contents().len() == 0 {
            assert(c.queue.contents().to_multiset() =~= vstd::multiset::Multiset::<T>::empty());
            assert(c.accepted.to_multiset() =~= c.received.to_multiset());
        }
    }
}

} // verus!
