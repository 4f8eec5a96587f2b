//! A Michael & Scott queue.
//!
//! The nodes live in an arena and link to each other by index. A node is
//! never freed once linked, so an index, like the pointer it stands for, is
//! never reused. A node is private to the enqueuing thread until the
//! instruction that links it, so the arena allocates it at that instruction.
use vstd::multiset::Multiset;
use vstd::prelude::*;

verus! {

/// Backoff before the first retry of a contended link, in nanoseconds.
pub const INITIAL_BACKOFF_NANOS: u64 = 1;

/// Backoff before the first retry of a contended dequeue, in nanoseconds.
pub const DEQUEUE_INITIAL_BACKOFF_NANOS: u64 = 10_000_000;

/// Upper bound of every later backoff, in nanoseconds.
pub const MAX_BACKOFF_NANOS: u64 = 100;

/// The backoff that follows `b`: twice `b`, capped at `MAX_BACKOFF_NANOS`.
pub open spec fn doubled_backoff(b: u64) -> u64 {
    if 2 * b < MAX_BACKOFF_NANOS {
        (2 * b) as u64
    } else {
        MAX_BACKOFF_NANOS
    }
}

/// The backoff that follows `backoff` after a failed attempt.
pub fn next_backoff(backoff: u64) -> (r: u64)
    ensures
        r == doubled_backoff(backoff),
{
    if backoff < MAX_BACKOFF_NANOS && backoff * 2 < MAX_BACKOFF_NANOS {
        backoff * 2
    } else {
        MAX_BACKOFF_NANOS
    }
}

struct Node<T> {
    item: Option<T>,
    next: Option<usize>,
}

impl<T> Node<T> {
    fn new(item: T) -> (n: Self)
        ensures
            n.item == Some(item),
            n.next is None,
    {
        Node { item: Some(item), next: None }
    }

    fn null() -> (n: Self)
        ensures
            n.item is None,
            n.next is None,
    {
        Node { item: None, next: None }
    }
}

/// The abstract state of a queue: the item slot of every node, in link
/// order (node 0 is the first sentinel), and the positions of head and tail.
pub struct QueueModel<T> {
    pub items: Seq<Option<T>>,
    pub head: nat,
    pub tail: nat,
}

impl<T> QueueModel<T> {
    /// There are nodes, no more than an index can name; head and tail name
    /// nodes, and every node after the head holds an item.
    pub open spec fn wf(self) -> bool {
        &&& 1 <= self.items.len() <= usize::MAX
        &&& self.head < self.items.len()
        &&& self.tail < self.items.len()
        &&& forall|k: int| self.head < k < self.items.len() ==> (#[trigger] self.items[k]) is Some
    }

    /// The items in the queue, oldest first: those of the nodes after the head.
    pub open spec fn contents(self) -> Seq<T> {
        self.items.subrange((self.head + 1) as int, self.items.len() as int).map_values(|o: Option<T>| o->0)
    }

    /// The index of the last node.
    pub open spec fn last(self) -> nat {
        (self.items.len() - 1) as nat
    }
}

/// The queue after an enqueue of `x` that no other thread interleaves
/// with: a node holding `x` follows the last one, and the tail points at it.
pub open spec fn solo_enqueue<T>(m: QueueModel<T>, x: T) -> QueueModel<T> {
    QueueModel { items: m.items.push(Some(x)), head: m.head, tail: m.items.len() }
}

/// The queue after a dequeue that no other thread interleaves with, and what
/// the dequeue returns: nothing when the head is the last node; otherwise
/// the head moves to the next node, whose item is taken out.
pub open spec fn solo_dequeue<T>(m: QueueModel<T>) -> (QueueModel<T>, Option<T>) {
    if m.head == m.last() {
        (m, None)
    } else {
        (
            QueueModel {
                items: m.items.update((m.head + 1) as int, None),
                head: (m.head + 1) as nat,
                ..m
            },
            m.items[(m.head + 1) as int],
        )
    }
}

/// Where a thread stands inside `Queue::enqueue`.
pub enum EnqueuePhase<T> {
    /// About to load the tail.
    ReadTail { item: T, backoff: u64 },
    /// Has loaded `tail`; about to load its successor.
    ReadNext { item: T, backoff: u64, tail: usize },
    /// Saw that `tail` has no successor; about to link a new node after it.
    Link { item: T, backoff: u64, tail: usize },
    /// Saw that `tail` is followed by `next`; about to swing the tail forward.
    Advance { item: T, backoff: u64, tail: usize, next: usize },
    /// Lost the race to link; about to sleep for `backoff` nanoseconds.
    Sleep { item: T, backoff: u64 },
    /// Linked `node` after `tail`; about to swing the tail to it.
    Swing { tail: usize, node: usize },
    Done,
}

/// Where a thread stands inside `Queue::dequeue`.
pub enum DequeuePhase<T> {
    /// About to load the head.
    ReadHead { backoff: u64 },
    /// Has loaded `head`; about to load its successor.
    ReadNext { backoff: u64, head: usize },
    /// Saw `next` after `head`; about to swing the head to it.
    Claim { backoff: u64, head: usize, next: usize },
    /// Lost the race for the head; about to sleep for `backoff` nanoseconds.
    Sleep { backoff: u64 },
    /// Won `node` as the new head; about to take its item.
    Take { node: usize },
    Done(Option<T>),
}

/// Every node index that `phase` holds names a node of a queue of `count`
/// nodes, and a successor it holds is the node after its predecessor.
pub open spec fn enqueue_phase_ok<T>(phase: EnqueuePhase<T>, count: nat) -> bool {
    match phase {
        EnqueuePhase::ReadNext { tail, .. } => tail < count,
        EnqueuePhase::Link { tail, .. } => tail < count,
        EnqueuePhase::Advance { tail, next, .. } => next < count && next == tail + 1,
        EnqueuePhase::Swing { tail, node } => node < count && node == tail + 1,
        _ => true,
    }
}

/// Every node index that `phase` holds names a node of a queue of `count`
/// nodes, and a successor it holds is the node after its predecessor.
pub open spec fn dequeue_phase_ok<T>(phase: DequeuePhase<T>, count: nat) -> bool {
    match phase {
        DequeuePhase::ReadNext { head, .. } => head < count,
        DequeuePhase::Claim { head, next, .. } => next < count && next == head + 1,
        DequeuePhase::Take { node } => node < count,
        _ => true,
    }
}

/// One instruction of an enqueue by the thread at `phase`: the queue after
/// it and the thread's next phase. In a well-formed queue the successor of
/// node `k` is node `k + 1`, and the last node has none.
pub open spec fn enqueue_transition<T>(m: QueueModel<T>, phase: EnqueuePhase<T>) -> (
    QueueModel<T>,
    EnqueuePhase<T>,
) {
    match phase {
        EnqueuePhase::ReadTail { item, backoff } => (
            m,
            EnqueuePhase::ReadNext { item, backoff, tail: m.tail as usize },
        ),
        EnqueuePhase::ReadNext { item, backoff, tail } => (
            m,
            if tail == m.last() {
                EnqueuePhase::Link { item, backoff, tail }
            } else {
                EnqueuePhase::Advance { item, backoff, tail, next: (tail + 1) as usize }
            },
        ),
        EnqueuePhase::Link { item, backoff, tail } => if tail == m.last() {
            (
                QueueModel { items: m.items.push(Some(item)), ..m },
                EnqueuePhase::Swing { tail, node: m.items.len() as usize },
            )
        } else {
            (m, EnqueuePhase::Sleep { item, backoff })
        },
        EnqueuePhase::Advance { item, backoff, tail, next } => (
            QueueModel {
                tail: if m.tail == tail {
                    next as nat
                } else {
                    m.tail
                },
                ..m
            },
            EnqueuePhase::ReadTail { item, backoff },
        ),
        EnqueuePhase::Sleep { item, backoff } => (
            m,
            EnqueuePhase::ReadTail { item, backoff: doubled_backoff(backoff) },
        ),
        EnqueuePhase::Swing { tail, node } => (
            QueueModel {
                tail: if m.tail == tail {
                    node as nat
                } else {
                    m.tail
                },
                ..m
            },
            EnqueuePhase::Done,
        ),
        EnqueuePhase::Done => (m, EnqueuePhase::Done),
    }
}

/// One instruction of a dequeue by the thread at `phase`: the queue after it
/// and the thread's next phase.
pub open spec fn dequeue_transition<T>(m: QueueModel<T>, phase: DequeuePhase<T>) -> (
    QueueModel<T>,
    DequeuePhase<T>,
) {
    match phase {
        DequeuePhase::ReadHead { backoff } => (
            m,
            DequeuePhase::ReadNext { backoff, head: m.head as usize },
        ),
        DequeuePhase::ReadNext { backoff, head } => (
            m,
            if head == m.last() {
                DequeuePhase::Done(None)
            } else {
                DequeuePhase::Claim { backoff, head, next: (head + 1) as usize }
            },
        ),
        DequeuePhase::Claim { backoff, head, next } => if m.head == head {
            (QueueModel { head: next as nat, ..m }, DequeuePhase::Take { node: next })
        } else {
            (m, DequeuePhase::Sleep { backoff })
        },
        DequeuePhase::Sleep { backoff } => (
            m,
            DequeuePhase::ReadHead { backoff: doubled_backoff(backoff) },
        ),
        DequeuePhase::Take { node } => (
            QueueModel { items: m.items.update(node as int, None), ..m },
            DequeuePhase::Done(m.items[node as int]),
        ),
        DequeuePhase::Done(r) => (m, DequeuePhase::Done(r)),
    }
}

/// A FIFO queue of `T` after Michael and Scott.
pub struct Queue<T> {
    nodes: Vec<Node<T>>,
    head: usize,
    tail: usize,
}

impl<T> Queue<T> {
    /// The abstract state of the queue.
    pub closed spec fn model(&self) -> QueueModel<T> {
        QueueModel {
            items: self.nodes@.map_values(|n: Node<T>| n.item),
            head: self.head as nat,
            tail: self.tail as nat,
        }
    }

    /// The successor of every node is the next node of the arena, and the
    /// abstract state is well formed.
    pub closed spec fn wf(&self) -> bool {
        &&& self.model().wf()
        &&& forall|k: int|
            0 <= k < self.nodes@.len() ==> (#[trigger] self.nodes@[k]).next == (if k + 1
                < self.nodes@.len() {
                Some((k + 1) as usize)
            } else {
                None
            })
    }

    /// An empty queue: a single sentinel node, at which head and tail point.
    pub fn new() -> (q: Self)
        ensures
            q.wf(),
            q.model().items == seq![None::<T>],
            q.model().head == 0,
            q.model().tail == 0,
            q@ == Seq::<T>::empty(),
    {
        let mut nodes = Vec::new();
        nodes.push(Node::null());
        let q = Queue { nodes, head: 0, tail: 0 };
        assert(q.model().items =~= seq![None::<T>]);
        assert(q@ =~= Seq::<T>::empty());
        q
    }

    /// The index of the node the head points at.
    pub fn head_node(&self) -> (r: usize)
        ensures
            r == self.model().head,
    {
        self.head
    }

    /// The index of the node the tail points at.
    pub fn tail_node(&self) -> (r: usize)
        ensures
            r == self.model().tail,
    {
        self.tail
    }

    /// The number of nodes ever linked, the first sentinel included.
    pub fn node_count(&self) -> (r: usize)
        requires
            self.wf(),
        ensures
            r == self.model().items.len(),
    {
        self.nodes.len()
    }

    proof fn lemma_successor(&self, k: int)
        requires
            self.wf(),
            0 <= k < self.nodes@.len(),
        ensures
            self.nodes@[k].next == (if k + 1 < self.nodes@.len() {
                Some((k + 1) as usize)
            } else {
                None
            }),
    {
    }

    /// Performs the one instruction of an enqueue that the thread at `phase`
    /// issues next, and returns the thread's next phase.
    pub fn enqueue_step(&mut self, phase: EnqueuePhase<T>) -> (r: EnqueuePhase<T>)
        requires
            old(self).wf(),
            enqueue_phase_ok(phase, old(self).model().items.len()),
            phase is Link ==> old(self).model().items.len() < usize::MAX,
        ensures
            final(self).wf(),
            (final(self).model(), r) == enqueue_transition(old(self).model(), phase),
    {
        let ghost m = self.model();
        proof {
            lemma_enqueue_action_is_transition(m, phase);
        }
        match phase {
            EnqueuePhase::Link { item, backoff, tail } => {
                proof {
                    self.lemma_successor(tail as int);
                }
                if self.nodes[tail].next.is_none() {
                    let node = self.nodes.len();
                    self.nodes[tail].next = Some(node);
                    self.nodes.push(Node::new(item));
                    proof {
                        assert(self.model().items =~= m.items.push(Some(item)));
                        assert forall|k: int| 0 <= k < self.nodes@.len() implies (
                        #[trigger] self.nodes@[k]).next == (if k + 1 < self.nodes@.len() {
                            Some((k + 1) as usize)
                        } else {
                            None
                        }) by {
                            if k < tail {
                                assert(old(self).nodes@[k] == self.nodes@[k]);
                            }
                        }
                    }
                    EnqueuePhase::Swing { tail, node }
                } else {
                    enqueue_advance(EnqueuePhase::Link { item, backoff, tail }, None)
                }
            },
            _ => {
                let observed: Option<usize> = match enqueue_action(&phase) {
                    QueueAction::LoadTail => Some(self.tail),
                    QueueAction::LoadNext(n) => {
                        proof {
                            self.lemma_successor(n as int);
                        }
                        self.nodes[n].next
                    },
                    QueueAction::SwingTail(from, to) => {
                        if self.tail == from {
                            self.tail = to;
                        }
                        None
                    },
                    _ => None,
                };
                enqueue_advance(phase, observed)
            },
        }
    }

    /// Performs the one instruction of a dequeue that the thread at `phase`
    /// issues next, and returns the thread's next phase.
    pub fn dequeue_step(&mut self, phase: DequeuePhase<T>) -> (r: DequeuePhase<T>)
        requires
            old(self).wf(),
            dequeue_phase_ok(phase, old(self).model().items.len()),
            phase matches DequeuePhase::Take { node } ==> node <= old(self).model().head,
        ensures
            final(self).wf(),
            (final(self).model(), r) == dequeue_transition(old(self).model(), phase),
    {
        let ghost m = self.model();
        proof {
            lemma_dequeue_action_is_transition(m, phase);
        }
        let (observed, taken): (Option<usize>, Option<T>) = match dequeue_action(&phase) {
            QueueAction::LoadHead => (Some(self.head), None),
            QueueAction::LoadNext(n) => {
                proof {
                    self.lemma_successor(n as int);
                }
                (self.nodes[n].next, None)
            },
            QueueAction::SwingHead(from, to) => {
                if self.head == from {
                    self.head = to;
                    (Some(to), None)
                } else {
                    (None, None)
                }
            },
            QueueAction::TakeItem(node) => {
                let item = self.nodes[node].item.take();
                proof {
                    assert(self.model().items =~= m.items.update(node as int, None));
                    assert forall|k: int|
                        self.model().head < k < self.model().items.len() implies (
                    #[trigger] self.model().items[k]) is Some by {
                        assert(m.items[k] is Some);
                    }
                    assert forall|k: int| 0 <= k < self.nodes@.len() implies (
                    #[trigger] self.nodes@[k]).next == (if k + 1 < self.nodes@.len() {
                        Some((k + 1) as usize)
                    } else {
                        None
                    }) by {
                        assert(old(self).nodes@[k].next == self.nodes@[k].next);
                    }
                }
                (None, item)
            },
            _ => (None, None),
        };
        dequeue_advance(phase, observed, taken)
    }
}

impl<T> EnqueuePhase<T> {
    /// Whether the enqueue has finished.
    pub fn is_done(&self) -> (r: bool)
        ensures
            r == (*self is Done),
    {
        match self {
            EnqueuePhase::Done => true,
            _ => false,
        }
    }
}

impl<T> DequeuePhase<T> {
    /// Whether the dequeue has finished.
    pub fn is_done(&self) -> (r: bool)
        ensures
            r == (*self is Done),
    {
        match self {
            DequeuePhase::Done(_) => true,
            _ => false,
        }
    }
}

/// What holds at each phase of an enqueue of `it` into `o` that no other
/// thread interleaves with: the queue is `m`.
spec fn solo_enqueue_inv<T>(m: QueueModel<T>, phase: EnqueuePhase<T>, o: QueueModel<T>, it: T) -> bool {
    &&& m.head == o.head
    &&& match phase {
        EnqueuePhase::ReadTail { item, .. } => item == it && m.items == o.items,
        EnqueuePhase::ReadNext { item, tail, .. } => item == it && m.items == o.items && tail
            == m.tail,
        EnqueuePhase::Link { item, tail, .. } => item == it && m.items == o.items && tail
            == m.tail && tail == m.last(),
        EnqueuePhase::Advance { item, tail, .. } => item == it && m.items == o.items && tail
            == m.tail,
        EnqueuePhase::Sleep { .. } => false,
        EnqueuePhase::Swing { tail, node } => m.items == o.items.push(Some(it)) && tail == m.tail
            && node == m.last(),
        EnqueuePhase::Done => m.items == o.items.push(Some(it)) && m.tail == m.last(),
    }
}

spec fn solo_enqueue_measure<T>(m: QueueModel<T>, phase: EnqueuePhase<T>) -> nat {
    match phase {
        EnqueuePhase::ReadTail { .. } => (3 * (m.items.len() - m.tail) + 2) as nat,
        EnqueuePhase::ReadNext { tail, .. } => (3 * (m.items.len() - tail) + 1) as nat,
        EnqueuePhase::Advance { tail, .. } => (3 * (m.items.len() - tail)) as nat,
        EnqueuePhase::Link { .. } => 2,
        EnqueuePhase::Swing { .. } => 1,
        _ => 0,
    }
}

/// What holds at each phase of a dequeue from `o` that no other thread
/// interleaves with: the queue is `m`.
spec fn solo_dequeue_inv<T>(m: QueueModel<T>, phase: DequeuePhase<T>, o: QueueModel<T>) -> bool {
    match phase {
        DequeuePhase::ReadHead { .. } => m == o,
        DequeuePhase::ReadNext { head, .. } => m == o && head == m.head,
        DequeuePhase::Claim { head, .. } => m == o && head == m.head,
        DequeuePhase::Sleep { .. } => false,
        DequeuePhase::Take { node } => node == m.head && node == (o.head + 1) as int && m.items == o.items
            && m.tail == o.tail,
        DequeuePhase::Done(r) => {
            &&& o.head == o.last() ==> r is None && m == o
            &&& o.head < o.last() ==> m.head == (o.head + 1) as int && m.tail == o.tail && m.items
                == o.items.update((o.head + 1) as int, None) && r == o.items[(o.head + 1) as int]
        },
    }
}

spec fn solo_dequeue_measure<T>(phase: DequeuePhase<T>) -> nat {
    match phase {
        DequeuePhase::ReadHead { .. } => 4,
        DequeuePhase::ReadNext { .. } => 3,
        DequeuePhase::Claim { .. } => 2,
        DequeuePhase::Take { .. } => 1,
        _ => 0,
    }
}

impl<T> Queue<T> {
    /// Appends `item`: the enqueue runs to completion with no other thread
    /// interleaved, so its link succeeds on its first attempt, after the tail
    /// has been swung forward over any nodes it lagged behind.
    pub fn enqueue(&mut self, item: T)
        requires
            old(self).wf(),
            old(self).model().items.len() < usize::MAX,
        ensures
            final(self).wf(),
            final(self)@ == old(self)@.push(item),
            final(self).model().items == old(self).model().items.push(Some(item)),
            final(self).model().head == old(self).model().head,
            final(self).model().tail == old(self).model().items.len(),
            final(self).model() == solo_enqueue(old(self).model(), item),
    {
        let ghost o = self.model();
        let ghost it = item;
        let mut phase = EnqueuePhase::ReadTail { item, backoff: INITIAL_BACKOFF_NANOS };
        while !phase.is_done()
            invariant
                self.wf(),
                self.model().items.len() <= o.items.len() + 1,
                o.items.len() < usize::MAX,
                enqueue_phase_ok(phase, self.model().items.len()),
                solo_enqueue_inv(self.model(), phase, o, it),
            decreases solo_enqueue_measure(self.model(), phase),
        {
            phase = self.enqueue_step(phase);
        }
        proof {
            let m = self.model();
            assert(m.items.subrange((m.head + 1) as int, m.items.len() as int) =~= o.items.subrange(
                (o.head + 1) as int,
                o.items.len() as int,
            ).push(Some(it)));
            assert(self@ =~= o.contents().push(it));
        }
    }

    /// Removes and returns the oldest item, or returns `None` when the queue
    /// is empty. The dequeue runs to completion with no other thread
    /// interleaved, so its claim of the head succeeds on its first attempt.
    pub fn dequeue(&mut self) -> (r: Option<T>)
        requires
            old(self).wf(),
        ensures
            final(self).wf(),
            final(self).model().items.len() == old(self).model().items.len(),
            old(self)@.len() == 0 ==> {
                &&& r is None
                &&& final(self).model() == old(self).model()
                &&& final(self)@ == old(self)@
            },
            old(self)@.len() > 0 ==> {
                &&& r == Some(old(self)@[0])
                &&& final(self)@ == old(self)@.drop_first()
                &&& final(self).model().head == old(self).model().head + 1
                &&& final(self).model().items == old(self).model().items.update(
                    (old(self).model().head + 1) as int,
                    None,
                )
                &&& final(self).model().tail == old(self).model().tail
            },
            (final(self).model(), r) == solo_dequeue(old(self).model()),
    {
        let ghost o = self.model();
        let mut phase = DequeuePhase::ReadHead { backoff: DEQUEUE_INITIAL_BACKOFF_NANOS };
        while !phase.is_done()
            invariant
                self.wf(),
                o.wf(),
                dequeue_phase_ok(phase, self.model().items.len()),
                phase matches DequeuePhase::Take { node } ==> node <= self.model().head,
                solo_dequeue_inv(self.model(), phase, o),
            decreases solo_dequeue_measure(phase),
        {
            phase = self.dequeue_step(phase);
        }
        match phase {
            DequeuePhase::Done(r) => {
                proof {
                    let m = self.model();
                    if o.head < o.last() {
                        assert(o.items[(o.head + 1) as int] is Some);
                        assert(m.items.subrange((m.head + 1) as int, m.items.len() as int) =~= o.items.subrange(
                            (o.head + 1) as int,
                            o.items.len() as int,
                        ).drop_first());
                        assert(self@ =~= o.contents().drop_first());
                    }
                }
                r
            },
            _ => None,
        }
    }

    /// Whether the queue holds no item: whether the head node has no successor.
    pub fn is_empty(&self) -> (r: bool)
        requires
            self.wf(),
        ensures
            r == (self@.len() == 0),
    {
        proof {
            self.lemma_successor(self.head as int);
        }
        self.nodes[self.head].next.is_none()
    }
}

impl<T> Queue<T> {
    /// The number of items in the queue.
    pub fn len(&self) -> (r: usize)
        requires
            self.wf(),
        ensures
            r == self@.len(),
    {
        self.nodes.len() - 1 - self.head
    }
}

impl<T> Default for Queue<T> {
    fn default() -> (q: Self)
        ensures
            q.wf(),
            q@ == Seq::<T>::empty(),
    {
        Queue::new()
    }
}

impl<T> View for Queue<T> {
    type V = Seq<T>;

    /// The items in the queue, oldest first.
    closed spec fn view(&self) -> Seq<T> {
        self.model().contents()
    }
}

} // verus!

verus! {

/// The node a dequeuing thread at `phase` has won and not yet emptied.
pub open spec fn claimed_node<T>(phase: DequeuePhase<T>) -> Option<usize> {
    match phase {
        DequeuePhase::Take { node } => Some(node),
        _ => None,
    }
}

/// A queue `m` with enqueuing threads at `enq` and dequeuing threads at
/// `deq`: the queue is well formed, every phase names nodes of it, and every
/// node won by a dequeuer is at or before the head, still holds its item,
/// and was won by no other dequeuer.
pub open spec fn queue_system_ok<T>(
    m: QueueModel<T>,
    enq: Seq<EnqueuePhase<T>>,
    deq: Seq<DequeuePhase<T>>,
) -> bool {
    &&& m.wf()
    &&& forall|i: int| 0 <= i < enq.len() ==> enqueue_phase_ok(#[trigger] enq[i], m.items.len())
    &&& forall|i: int| 0 <= i < deq.len() ==> dequeue_phase_ok(#[trigger] deq[i], m.items.len())
    &&& forall|i: int|
        0 <= i < deq.len() && (#[trigger] claimed_node(deq[i])) is Some ==> {
            &&& claimed_node(deq[i])->0 <= m.head
            &&& m.items[claimed_node(deq[i])->0 as int] is Some
        }
    &&& forall|i: int, j: int|
        0 <= i < deq.len() && 0 <= j < deq.len() && i != j && (#[trigger] claimed_node(deq[i]))
            is Some ==> #[trigger] claimed_node(deq[j]) != claimed_node(deq[i])
}

/// Law: an instruction of any enqueuing thread keeps the system well formed.
/// It changes the contents of the queue only when it links the thread's node,
/// and then appends exactly the thread's item; the slots of the nodes already
/// linked keep their items.
pub proof fn lemma_enqueue_step_keeps_system<T>(
    m: QueueModel<T>,
    enq: Seq<EnqueuePhase<T>>,
    deq: Seq<DequeuePhase<T>>,
    i: int,
)
    requires
        queue_system_ok(m, enq, deq),
        0 <= i < enq.len(),
        m.items.len() < usize::MAX,
    ensures
        ({
            let (m2, p2) = enqueue_transition(m, enq[i]);
            &&& queue_system_ok(m2, enq.update(i, p2), deq)
            &&& m2.items.subrange(0, m.items.len() as int) == m.items
            &&& m2.head == m.head
            &&& m2.contents() == m.contents() || (enq[i] matches EnqueuePhase::Link { item, .. }
                && m2.contents() == m.contents().push(item))
        }),
{
    let (m2, p2) = enqueue_transition(m, enq[i]);
    let enq2 = enq.update(i, p2);
    assert(m2.items.subrange(0, m.items.len() as int) =~= m.items);
    assert forall|k: int| 0 <= k < enq2.len() implies enqueue_phase_ok(
        #[trigger] enq2[k],
        m2.items.len(),
    ) by {
        if k != i {
            assert(enqueue_phase_ok(enq[k], m.items.len()));
        } else {
            assert(enqueue_phase_ok(enq[i], m.items.len()));
            match enq[i] {
                EnqueuePhase::ReadNext { tail, .. } => {},
                EnqueuePhase::Link { tail, .. } => {},
                _ => {},
            }
        }
    }
    assert forall|k: int|
        0 <= k < deq.len() && (#[trigger] claimed_node(deq[k])) is Some implies {
        &&& claimed_node(deq[k])->0 <= m2.head
        &&& m2.items[claimed_node(deq[k])->0 as int] is Some
    } by {
        assert(m.items[claimed_node(deq[k])->0 as int] is Some);
    }
    assert forall|k: int| 0 <= k < deq.len() implies dequeue_phase_ok(
        #[trigger] deq[k],
        m2.items.len(),
    ) by {
        assert(dequeue_phase_ok(deq[k], m.items.len()));
    }
    assert forall|k: int| m2.head < k < m2.items.len() implies (#[trigger] m2.items[k]) is Some by {
        if k < m.items.len() {
            assert(m.items[k] is Some);
        }
    }
    if let EnqueuePhase::Link { item, tail, .. } = enq[i] {
        if tail == m.last() {
            assert(m2.contents() =~= m.contents().push(item));
        }
    }
}

/// Law: an instruction of any dequeuing thread keeps the system well formed.
/// It changes the contents of the queue only when it wins the head, and then
/// removes exactly the oldest item, which stays in the won node, untouched by
/// every other thread, until the winner takes it; the take hands back that
/// item. Every other slot keeps its item.
pub proof fn lemma_dequeue_step_keeps_system<T>(
    m: QueueModel<T>,
    enq: Seq<EnqueuePhase<T>>,
    deq: Seq<DequeuePhase<T>>,
    i: int,
)
    requires
        queue_system_ok(m, enq, deq),
        0 <= i < deq.len(),
    ensures
        ({
            let (m2, p2) = dequeue_transition(m, deq[i]);
            &&& queue_system_ok(m2, enq, deq.update(i, p2))
            &&& m2.items.len() == m.items.len()
            &&& m2.tail == m.tail
            &&& forall|k: int|
                0 <= k < m.items.len() && Some(k as usize) != claimed_node(deq[i]) ==> m2.items[k]
                    == m.items[k]
            &&& m2.contents() == m.contents() || (m.contents().len() > 0 && m2.contents()
                == m.contents().drop_first() && claimed_node(p2) is Some && m.items[claimed_node(
                p2)->0 as int] == Some(m.contents()[0]))
            &&& deq[i] is Take ==> (p2 matches DequeuePhase::Done(r) && r is Some && r == m.items[
                claimed_node(deq[i])->0 as int])
        }),
{
    let (m2, p2) = dequeue_transition(m, deq[i]);
    let deq2 = deq.update(i, p2);
    assert forall|k: int| 0 <= k < enq.len() implies enqueue_phase_ok(
        #[trigger] enq[k],
        m2.items.len(),
    ) by {
        assert(enqueue_phase_ok(enq[k], m.items.len()));
    }
    assert forall|k: int| 0 <= k < deq2.len() implies dequeue_phase_ok(
        #[trigger] deq2[k],
        m2.items.len(),
    ) by {
        if k != i {
            assert(dequeue_phase_ok(deq[k], m.items.len()));
        } else {
            assert(dequeue_phase_ok(deq[i], m.items.len()));
            match deq[i] {
                DequeuePhase::ReadNext { head, .. } => {},
                DequeuePhase::Claim { head, next, .. } => {},
                _ => {},
            }
        }
    }
    assert forall|k: int| m2.head < k < m2.items.len() implies (#[trigger] m2.items[k]) is Some by {
        assert(m.items[k] is Some);
    }
    assert forall|k: int|
        0 <= k < deq2.len() && (#[trigger] claimed_node(deq2[k])) is Some implies {
        &&& claimed_node(deq2[k])->0 <= m2.head
        &&& m2.items[claimed_node(deq2[k])->0 as int] is Some
    } by {
        if k != i {
            assert(claimed_node(deq[k]) is Some);
            assert(m.items[claimed_node(deq[k])->0 as int] is Some);
            if deq[i] is Take {
                assert(claimed_node(deq[k]) != claimed_node(deq[i]));
            }
        } else {
            assert(m.items[(m.head + 1) as int] is Some);
        }
    }
    assert forall|a: int, b: int|
        0 <= a < deq2.len() && 0 <= b < deq2.len() && a != b && (#[trigger] claimed_node(
            deq2[a],
        )) is Some implies #[trigger] claimed_node(deq2[b]) != claimed_node(deq2[a]) by {
        if a == i {
            assert(claimed_node(deq[b]) is Some ==> claimed_node(deq[b])->0 <= m.head);
        } else if b == i {
            assert(claimed_node(deq[a])->0 <= m.head);
        } else {
        }
    }
    if let DequeuePhase::Claim { head, next, .. } = deq[i] {
        if m.head == head {
            assert(m.items[next as int] is Some);
            assert(m2.contents() =~= m.contents().drop_first());
        }
    }
    if let DequeuePhase::Take { node } = deq[i] {
        assert(m2.contents() =~= m.contents());
    }
}

} // verus!

verus! {

/// The queue after enqueues of the items of `xs`, in order, with no other
/// thread interleaved.
pub open spec fn enqueue_all<T>(m: QueueModel<T>, xs: Seq<T>) -> QueueModel<T>
    decreases xs.len(),
{
    if xs.len() == 0 {
        m
    } else {
        enqueue_all(solo_enqueue(m, xs[0]), xs.drop_first())
    }
}

/// The queue after `n` dequeues with no other thread interleaved, and what
/// they return, in order.
pub open spec fn dequeue_n<T>(m: QueueModel<T>, n: nat) -> (QueueModel<T>, Seq<Option<T>>)
    decreases n,
{
    if n == 0 {
        (m, Seq::empty())
    } else {
        let (m1, r) = solo_dequeue(m);
        let (m2, rs) = dequeue_n(m1, (n - 1) as nat);
        (m2, seq![r] + rs)
    }
}

proof fn lemma_solo_enqueue<T>(m: QueueModel<T>, x: T)
    requires
        m.wf(),
        m.items.len() < usize::MAX,
    ensures
        solo_enqueue(m, x).wf(),
        solo_enqueue(m, x).contents() == m.contents().push(x),
{
    let m2 = solo_enqueue(m, x);
    assert forall|k: int| m2.head < k < m2.items.len() implies (#[trigger] m2.items[k]) is Some by {
        if k < m.items.len() {
            assert(m.items[k] is Some);
        }
    }
    assert(m2.items.subrange((m2.head + 1) as int, m2.items.len() as int) =~= m.items.subrange(
        (m.head + 1) as int,
        m.items.len() as int,
    ).push(Some(x)));
    assert(m2.contents() =~= m.contents().push(x));
}

proof fn lemma_solo_dequeue<T>(m: QueueModel<T>)
    requires
        m.wf(),
    ensures
        solo_dequeue(m).0.wf(),
        solo_dequeue(m).0.items.len() == m.items.len(),
        m.contents().len() == 0 ==> solo_dequeue(m).1 is None && solo_dequeue(m).0 == m,
        m.contents().len() > 0 ==> solo_dequeue(m).1 == Some(m.contents()[0])
            && solo_dequeue(m).0.contents() == m.contents().drop_first(),
{
    let (m2, r) = solo_dequeue(m);
    if m.head < m.last() {
        assert(m.items[(m.head + 1) as int] is Some);
        assert forall|k: int| m2.head < k < m2.items.len() implies (
        #[trigger] m2.items[k]) is Some by {
            assert(m.items[k] is Some);
        }
        assert(m2.items.subrange((m2.head + 1) as int, m2.items.len() as int) =~= m.items.subrange(
            (m.head + 1) as int,
            m.items.len() as int,
        ).drop_first());
        assert(m2.contents() =~= m.contents().drop_first());
    }
}

/// Enqueuing the items of `xs` appends them to the contents, in order.
pub proof fn lemma_enqueue_all<T>(m: QueueModel<T>, xs: Seq<T>)
    requires
        m.wf(),
        m.items.len() + xs.len() <= usize::MAX,
    ensures
        enqueue_all(m, xs).wf(),
        enqueue_all(m, xs).items.len() == m.items.len() + xs.len(),
        enqueue_all(m, xs).contents() == m.contents() + xs,
    decreases xs.len(),
{
    if xs.len() == 0 {
        assert(m.contents() + xs =~= m.contents());
    } else {
        lemma_solo_enqueue(m, xs[0]);
        let m1 = solo_enqueue(m, xs[0]);
        lemma_enqueue_all(m1, xs.drop_first());
        assert(m.contents().push(xs[0]) + xs.drop_first() =~= m.contents() + xs);
    }
}

/// `n` dequeues from a queue holding at least `n` items return its first
/// `n` items, in order, and leave the rest.
pub proof fn lemma_dequeue_n<T>(m: QueueModel<T>, n: nat)
    requires
        m.wf(),
        n <= m.contents().len(),
    ensures
        dequeue_n(m, n).0.wf(),
        dequeue_n(m, n).1 == m.contents().take(n as int).map_values(|x: T| Some(x)),
        dequeue_n(m, n).0.contents() == m.contents().skip(n as int),
    decreases n,
{
    if n == 0 {
        assert(m.contents().take(0).map_values(|x: T| Some(x)) =~= Seq::<Option<T>>::empty());
        assert(m.contents().skip(0) =~= m.contents());
    } else {
        lemma_solo_dequeue(m);
        let (m1, r) = solo_dequeue(m);
        lemma_dequeue_n(m1, (n - 1) as nat);
        let c = m.contents();
        assert(seq![r] + c.drop_first().take(n - 1).map_values(|x: T| Some(x)) =~= c.take(
            n as int,
        ).map_values(|x: T| Some(x)));
        assert(c.drop_first().skip(n - 1) =~= c.skip(n as int));
    }
}

/// Law (first in, first out): after enqueuing the items of `xs` into a
/// queue, dequeuing as many times as it then holds items returns its
/// earlier items and then those of `xs`, each once and in order, and leaves
/// it empty.
pub proof fn lemma_fifo<T>(m: QueueModel<T>, xs: Seq<T>)
    requires
        m.wf(),
        m.items.len() + xs.len() <= usize::MAX,
    ensures
        ({
            let (m2, out) = dequeue_n(enqueue_all(m, xs), m.contents().len() + xs.len());
            &&& out == (m.contents() + xs).map_values(|x: T| Some(x))
            &&& m2.contents().len() == 0
        }),
{
    lemma_enqueue_all(m, xs);
    let m1 = enqueue_all(m, xs);
    lemma_dequeue_n(m1, m.contents().len() + xs.len());
    assert(m1.contents().take(m1.contents().len() as int) =~= m1.contents());
}

} // verus!

verus! {

/// The item an enqueuing thread at `phase` still carries, not yet linked.
pub open spec fn carried_item<T>(phase: EnqueuePhase<T>) -> Multiset<T> {
    match phase {
        EnqueuePhase::ReadTail { item, .. } => Multiset::singleton(item),
        EnqueuePhase::ReadNext { item, .. } => Multiset::singleton(item),
        EnqueuePhase::Link { item, .. } => Multiset::singleton(item),
        EnqueuePhase::Advance { item, .. } => Multiset::singleton(item),
        EnqueuePhase::Sleep { item, .. } => Multiset::singleton(item),
        _ => Multiset::empty(),
    }
}

/// The items the enqueuing threads carry, not yet linked.
pub open spec fn carried_items<T>(enq: Seq<EnqueuePhase<T>>) -> Multiset<T>
    decreases enq.len(),
{
    if enq.len() == 0 {
        Multiset::empty()
    } else {
        carried_items(enq.drop_last()).add(carried_item(enq.last()))
    }
}

/// The item of the node a dequeuing thread at `phase` has won and not yet
/// emptied.
pub open spec fn won_item<T>(items: Seq<Option<T>>, phase: DequeuePhase<T>) -> Multiset<T> {
    match claimed_node(phase) {
        Some(n) => Multiset::singleton(items[n as int]->0),
        None => Multiset::empty(),
    }
}

/// The items of the nodes the dequeuing threads have won and not yet emptied.
pub open spec fn won_items<T>(items: Seq<Option<T>>, deq: Seq<DequeuePhase<T>>) -> Multiset<T>
    decreases deq.len(),
{
    if deq.len() == 0 {
        Multiset::empty()
    } else {
        won_items(items, deq.drop_last()).add(won_item(items, deq.last()))
    }
}

/// A queue, the threads that enqueue and dequeue on it, and the history of
/// the run: every item handed to an enqueue, and every item a dequeue has
/// returned, in order.
pub struct QueueSystem<T> {
    pub queue: QueueModel<T>,
    pub enq: Seq<EnqueuePhase<T>>,
    pub deq: Seq<DequeuePhase<T>>,
    pub submitted: Seq<T>,
    pub delivered: Seq<T>,
}

/// What one thread does next: an enqueuing thread (by its index among the
/// enqueuers) starts an enqueue or takes a step of it; a dequeuing thread
/// (by its index among the dequeuers) starts a dequeue or takes a step of it.
pub enum QueueEvent<T> {
    StartEnqueue(T),
    EnqueueStep,
    StartDequeue,
    DequeueStep,
}

/// A new queue, `n_enq` enqueuers and `n_deq` dequeuers, none of them busy.
pub open spec fn queue_initial<T>(n_enq: nat, n_deq: nat) -> QueueSystem<T> {
    QueueSystem {
        queue: QueueModel { items: seq![None], head: 0, tail: 0 },
        enq: Seq::new(n_enq, |i: int| EnqueuePhase::Done),
        deq: Seq::new(n_deq, |i: int| DequeuePhase::Done(None)),
        submitted: Seq::empty(),
        delivered: Seq::empty(),
    }
}

/// The system after thread `tid` does `e`; an event the thread cannot do
/// where it stands changes nothing.
pub open spec fn queue_apply<T>(s: QueueSystem<T>, tid: int, e: QueueEvent<T>) -> QueueSystem<T> {
    match e {
        QueueEvent::StartEnqueue(x) => if 0 <= tid < s.enq.len() && s.enq[tid] is Done {
            QueueSystem {
                enq: s.enq.update(
                    tid,
                    EnqueuePhase::ReadTail { item: x, backoff: INITIAL_BACKOFF_NANOS },
                ),
                submitted: s.submitted.push(x),
                ..s
            }
        } else {
            s
        },
        QueueEvent::EnqueueStep => if 0 <= tid < s.enq.len() && !(s.enq[tid] is Done) {
            let (m2, p2) = enqueue_transition(s.queue, s.enq[tid]);
            QueueSystem { queue: m2, enq: s.enq.update(tid, p2), ..s }
        } else {
            s
        },
        QueueEvent::StartDequeue => if 0 <= tid < s.deq.len() && s.deq[tid] is Done {
            QueueSystem {
                deq: s.deq.update(
                    tid,
                    DequeuePhase::ReadHead { backoff: DEQUEUE_INITIAL_BACKOFF_NANOS },
                ),
                ..s
            }
        } else {
            s
        },
        QueueEvent::DequeueStep => if 0 <= tid < s.deq.len() && !(s.deq[tid] is Done) {
            let (m2, p2) = dequeue_transition(s.queue, s.deq[tid]);
            QueueSystem {
                queue: m2,
                deq: s.deq.update(tid, p2),
                delivered: if s.deq[tid] is Take {
                    s.delivered.push(s.queue.items[claimed_node(s.deq[tid])->0 as int]->0)
                } else {
                    s.delivered
                },
                ..s
            }
        } else {
            s
        },
    }
}

/// The system after the events, in order, each by the thread it names.
pub open spec fn queue_run<T>(s: QueueSystem<T>, events: Seq<(int, QueueEvent<T>)>) -> QueueSystem<T>
    decreases events.len(),
{
    if events.len() == 0 {
        s
    } else {
        queue_run(queue_apply(s, events[0].0, events[0].1), events.drop_first())
    }
}

/// Every item handed to an enqueue is, exactly once, either still carried
/// by its enqueuer, or in the queue, or in a node a dequeuer has won, or
/// returned by a dequeue.
pub open spec fn queue_accounted<T>(s: QueueSystem<T>) -> bool {
    s.submitted.to_multiset() == carried_items(s.enq).add(s.queue.contents().to_multiset()).add(
        won_items(s.queue.items, s.deq),
    ).add(s.delivered.to_multiset())
}

proof fn lemma_carried_update<T>(enq: Seq<EnqueuePhase<T>>, i: int, p: EnqueuePhase<T>)
    requires
        0 <= i < enq.len(),
    ensures
        carried_items(enq.update(i, p)).add(carried_item(enq[i])) == carried_items(enq).add(
            carried_item(p),
        ),
    decreases enq.len(),
{
    broadcast use vstd::multiset::group_multiset_axioms;

    let e2 = enq.update(i, p);
    let lhs = carried_items(e2).add(carried_item(enq[i]));
    let rhs = carried_items(enq).add(carried_item(p));
    if i == enq.len() - 1 {
        assert(e2.drop_last() =~= enq.drop_last());
        assert(e2.last() == p);
        assert forall|x: T| lhs.count(x) == rhs.count(x) by {}
    } else {
        assert(e2.drop_last() =~= enq.drop_last().update(i, p));
        assert(e2.last() == enq.last());
        lemma_carried_update(enq.drop_last(), i, p);
        let d = carried_items(enq.drop_last().update(i, p)).add(carried_item(enq[i]));
        assert(d == carried_items(enq.drop_last()).add(carried_item(p)));
        assert forall|x: T| lhs.count(x) == rhs.count(x) by {
            assert(d.count(x) == carried_items(enq.drop_last()).add(carried_item(p)).count(x));
        }
    }
    assert(lhs =~= rhs);
}

proof fn lemma_won_update<T>(items: Seq<Option<T>>, deq: Seq<DequeuePhase<T>>, i: int, p: DequeuePhase<T>)
    requires
        0 <= i < deq.len(),
    ensures
        won_items(items, deq.update(i, p)).add(won_item(items, deq[i])) == won_items(items, deq).add(
            won_item(items, p),
        ),
    decreases deq.len(),
{
    broadcast use vstd::multiset::group_multiset_axioms;

    let d2 = deq.update(i, p);
    let lhs = won_items(items, d2).add(won_item(items, deq[i]));
    let rhs = won_items(items, deq).add(won_item(items, p));
    if i == deq.len() - 1 {
        assert(d2.drop_last() =~= deq.drop_last());
        assert(d2.last() == p);
        assert forall|x: T| lhs.count(x) == rhs.count(x) by {}
    } else {
        assert(d2.drop_last() =~= deq.drop_last().update(i, p));
        assert(d2.last() == deq.last());
        lemma_won_update(items, deq.drop_last(), i, p);
        let d = won_items(items, deq.drop_last().update(i, p)).add(won_item(items, deq[i]));
        assert(d == won_items(items, deq.drop_last()).add(won_item(items, p)));
        assert forall|x: T| lhs.count(x) == rhs.count(x) by {
            assert(d.count(x) == won_items(items, deq.drop_last()).add(won_item(items, p)).count(x));
        }
    }
    assert(lhs =~= rhs);
}

proof fn lemma_won_frame<T>(items: Seq<Option<T>>, items2: Seq<Option<T>>, deq: Seq<DequeuePhase<T>>)
    requires
        forall|k: int|
            0 <= k < deq.len() && (#[trigger] claimed_node(deq[k])) is Some ==> items2[claimed_node(
                deq[k],
            )->0 as int] == items[claimed_node(deq[k])->0 as int],
    ensures
        won_items(items2, deq) == won_items(items, deq),
    decreases deq.len(),
{
    if deq.len() > 0 {
        let d = deq.drop_last();
        assert forall|k: int|
            0 <= k < d.len() && (#[trigger] claimed_node(d[k])) is Some implies items2[claimed_node(
                d[k],
            )->0 as int] == items[claimed_node(d[k])->0 as int] by {
            assert(d[k] == deq[k]);
        }
        lemma_won_frame(items, items2, d);
        if claimed_node(deq.last()) is Some {
            assert(claimed_node(deq[deq.len() - 1]) is Some);
        }
    }
}

proof fn lemma_all_idle<T>(enq: Seq<EnqueuePhase<T>>, items: Seq<Option<T>>, deq: Seq<DequeuePhase<T>>)
    requires
        forall|i: int| 0 <= i < enq.len() ==> (#[trigger] enq[i]) is Done,
        forall|i: int| 0 <= i < deq.len() ==> (#[trigger] deq[i]) is Done,
    ensures
        carried_items(enq) == Multiset::<T>::empty(),
        won_items(items, deq) == Multiset::<T>::empty(),
    decreases enq.len() + deq.len(),
{
    broadcast use vstd::multiset::group_multiset_axioms;

    if enq.len() > 0 {
        let e = enq.drop_last();
        assert forall|i: int| 0 <= i < e.len() implies (#[trigger] e[i]) is Done by {
            assert(e[i] == enq[i]);
        }
        assert(enq[enq.len() - 1] is Done);
        lemma_all_idle(e, items, deq);
        assert(carried_items(enq) =~= Multiset::<T>::empty());
    }
    if deq.len() > 0 {
        let d = deq.drop_last();
        assert forall|i: int| 0 <= i < d.len() implies (#[trigger] d[i]) is Done by {
            assert(d[i] == deq[i]);
        }
        assert(deq[deq.len() - 1] is Done);
        lemma_all_idle(Seq::<EnqueuePhase<T>>::empty(), items, d);
        assert(won_items(items, deq) =~= Multiset::<T>::empty());
    }
}

} // verus!

verus! {

/// All the items the system accounts for.
pub open spec fn accounted_total<T>(s: QueueSystem<T>) -> Multiset<T> {
    carried_items(s.enq).add(s.queue.contents().to_multiset()).add(won_items(s.queue.items, s.deq)).add(
        s.delivered.to_multiset(),
    )
}

proof fn lemma_start_enqueue<T>(s: QueueSystem<T>, tid: int, x: T)
    requires
        queue_system_ok(s.queue, s.enq, s.deq),
        queue_accounted(s),
        0 <= tid < s.enq.len(),
        s.enq[tid] is Done,
    ensures
        ({
            let s2 = queue_apply(s, tid, QueueEvent::StartEnqueue(x));
            queue_system_ok(s2.queue, s2.enq, s2.deq) && queue_accounted(s2)
        }),
{
    broadcast use vstd::multiset::group_multiset_axioms;
    broadcast use vstd::seq_lib::group_to_multiset_ensures;

    let s2 = queue_apply(s, tid, QueueEvent::StartEnqueue(x));
    let p = EnqueuePhase::ReadTail { item: x, backoff: INITIAL_BACKOFF_NANOS };
    lemma_carried_update(s.enq, tid, p);
    assert forall|k: int| 0 <= k < s2.enq.len() implies enqueue_phase_ok(
        #[trigger] s2.enq[k],
        s2.queue.items.len(),
    ) by {
        if k != tid {
            assert(enqueue_phase_ok(s.enq[k], s.queue.items.len()));
        }
    }
    assert(s2.submitted.to_multiset() == s.submitted.to_multiset().insert(x));
    assert(carried_item(s.enq[tid]) == Multiset::<T>::empty());
    assert(carried_item(p) == Multiset::singleton(x));
    assert forall|y: T| s2.submitted.to_multiset().count(y) == accounted_total(s2).count(y) by {
        assert(s.submitted.to_multiset().count(y) == accounted_total(s).count(y));
        assert(carried_items(s2.enq).add(carried_item(s.enq[tid])).count(y) == carried_items(
            s.enq,
        ).add(carried_item(p)).count(y));
    }
    assert(s2.submitted.to_multiset() =~= accounted_total(s2));
}

proof fn lemma_enqueue_event<T>(s: QueueSystem<T>, tid: int)
    requires
        queue_system_ok(s.queue, s.enq, s.deq),
        queue_accounted(s),
        s.queue.items.len() < usize::MAX,
        0 <= tid < s.enq.len(),
        !(s.enq[tid] is Done),
    ensures
        ({
            let s2 = queue_apply(s, tid, QueueEvent::EnqueueStep);
            &&& queue_system_ok(s2.queue, s2.enq, s2.deq)
            &&& queue_accounted(s2)
            &&& s2.queue.items.len() <= s.queue.items.len() + 1
        }),
{
    broadcast use vstd::multiset::group_multiset_axioms;
    broadcast use vstd::seq_lib::group_to_multiset_ensures;

    let p = s.enq[tid];
    let (m2, p2) = enqueue_transition(s.queue, p);
    let s2 = queue_apply(s, tid, QueueEvent::EnqueueStep);
    lemma_enqueue_step_keeps_system(s.queue, s.enq, s.deq, tid);
    lemma_carried_update(s.enq, tid, p2);
    assert forall|k: int|
        0 <= k < s.deq.len() && (#[trigger] claimed_node(s.deq[k])) is Some implies m2.items[claimed_node(
            s.deq[k],
        )->0 as int] == s.queue.items[claimed_node(s.deq[k])->0 as int] by {
        assert(dequeue_phase_ok(s.deq[k], s.queue.items.len()));
        let n = claimed_node(s.deq[k])->0 as int;
        assert(m2.items.subrange(0, s.queue.items.len() as int)[n] == m2.items[n]);
    }
    lemma_won_frame(s.queue.items, m2.items, s.deq);
    let linked = p matches EnqueuePhase::Link { tail, .. } && tail == s.queue.last();
    if linked {
        let x = p->Link_item;
        assert(m2.contents() == s.queue.contents().push(x));
        assert(carried_item(p) == Multiset::singleton(x));
        assert(carried_item(p2) == Multiset::<T>::empty());
    } else {
        assert(carried_item(p2) == carried_item(p));
        assert(m2.contents() == s.queue.contents());
    }
    assert(s2.queue == m2 && s2.enq == s.enq.update(tid, p2) && s2.deq == s.deq);
    assert(s2.submitted == s.submitted && s2.delivered == s.delivered);
    assert forall|y: T| s2.submitted.to_multiset().count(y) == accounted_total(s2).count(y) by {
        assert(s.submitted.to_multiset().count(y) == accounted_total(s).count(y));
        assert(carried_items(s2.enq).add(carried_item(p)).count(y) == carried_items(s.enq).add(
            carried_item(p2),
        ).count(y));
        if linked {
            assert(m2.contents().to_multiset() == s.queue.contents().to_multiset().insert(
                p->Link_item,
            ));
        }
    }
    assert(s2.submitted.to_multiset() =~= accounted_total(s2));
}

proof fn lemma_start_dequeue<T>(s: QueueSystem<T>, tid: int)
    requires
        queue_system_ok(s.queue, s.enq, s.deq),
        queue_accounted(s),
        0 <= tid < s.deq.len(),
        s.deq[tid] is Done,
    ensures
        ({
            let s2 = queue_apply(s, tid, QueueEvent::StartDequeue);
            queue_system_ok(s2.queue, s2.enq, s2.deq) && queue_accounted(s2)
        }),
{
    broadcast use vstd::multiset::group_multiset_axioms;

    let s2 = queue_apply(s, tid, QueueEvent::StartDequeue);
    let p2 = DequeuePhase::ReadHead { backoff: DEQUEUE_INITIAL_BACKOFF_NANOS };
    lemma_won_update(s.queue.items, s.deq, tid, p2);
    let d2 = s2.deq;
    assert forall|k: int| 0 <= k < d2.len() implies dequeue_phase_ok(
        #[trigger] d2[k],
        s2.queue.items.len(),
    ) by {
        if k != tid {
            assert(dequeue_phase_ok(s.deq[k], s.queue.items.len()));
        }
    }
    assert forall|k: int|
        0 <= k < d2.len() && (#[trigger] claimed_node(d2[k])) is Some implies {
        &&& claimed_node(d2[k])->0 <= s2.queue.head
        &&& s2.queue.items[claimed_node(d2[k])->0 as int] is Some
    } by {
        assert(d2[k] == s.deq[k]);
        assert(claimed_node(s.deq[k]) is Some);
    }
    assert forall|a: int, b: int|
        0 <= a < d2.len() && 0 <= b < d2.len() && a != b && (#[trigger] claimed_node(d2[a]))
            is Some implies #[trigger] claimed_node(d2[b]) != claimed_node(d2[a]) by {
        assert(d2[a] == s.deq[a]);
        assert(claimed_node(s.deq[a]) is Some);
        if b != tid {
            assert(d2[b] == s.deq[b]);
        }
    }
    assert(s2.queue == s.queue && s2.enq == s.enq && s2.deq == s.deq.update(tid, p2));
    assert(won_item(s.queue.items, s.deq[tid]) == Multiset::<T>::empty());
    assert(won_item(s.queue.items, p2) == Multiset::<T>::empty());
    assert forall|y: T| s2.submitted.to_multiset().count(y) == accounted_total(s2).count(y) by {
        assert(s.submitted.to_multiset().count(y) == accounted_total(s).count(y));
        assert(won_items(s.queue.items, s2.deq).add(won_item(s.queue.items, s.deq[tid])).count(y)
            == won_items(s.queue.items, s.deq).add(won_item(s.queue.items, p2)).count(y));
    }
    assert(s2.submitted.to_multiset() =~= accounted_total(s2));
}

proof fn lemma_dequeue_event<T>(s: QueueSystem<T>, tid: int)
    requires
        queue_system_ok(s.queue, s.enq, s.deq),
        queue_accounted(s),
        0 <= tid < s.deq.len(),
        !(s.deq[tid] is Done),
    ensures
        ({
            let s2 = queue_apply(s, tid, QueueEvent::DequeueStep);
            &&& queue_system_ok(s2.queue, s2.enq, s2.deq)
            &&& queue_accounted(s2)
            &&& s2.queue.items.len() == s.queue.items.len()
        }),
{
    broadcast use vstd::multiset::group_multiset_axioms;
    broadcast use vstd::seq_lib::group_to_multiset_ensures;

    let p = s.deq[tid];
    let m = s.queue;
    let (m2, p2) = dequeue_transition(m, p);
    let s2 = queue_apply(s, tid, QueueEvent::DequeueStep);
    lemma_dequeue_step_keeps_system(m, s.enq, s.deq, tid);
    let d2 = s.deq.update(tid, p2);
    // The slots of the nodes the other dequeuers won are untouched.
    assert forall|k: int|
        0 <= k < d2.len() && (#[trigger] claimed_node(d2[k])) is Some implies m2.items[claimed_node(
            d2[k],
        )->0 as int] == m.items[claimed_node(d2[k])->0 as int] by {
        if k != tid {
            assert(d2[k] == s.deq[k]);
            assert(dequeue_phase_ok(s.deq[k], m.items.len()));
            if p is Take {
                assert(claimed_node(s.deq[tid]) is Some);
                assert(claimed_node(s.deq[k]) != claimed_node(s.deq[tid]));
            }
        } else {
            assert(p2 is Take);
            assert(!(p is Take));
        }
    }
    lemma_won_frame(m.items, m2.items, d2);
    lemma_won_update(m.items, s.deq, tid, p2);
    if p is Take {
        let n = claimed_node(p)->0 as int;
        assert(claimed_node(s.deq[tid]) is Some);
        assert(m.items[n] is Some);
        assert(won_item(m.items, p) == Multiset::singleton(m.items[n]->0));
        assert(won_item(m.items, p2) == Multiset::<T>::empty());
        assert(m2.contents() == m.contents());
    } else if m2.contents() == m.contents() {
        assert(won_item(m.items, p) == Multiset::<T>::empty());
        if claimed_node(p2) is Some {
            assert(p matches DequeuePhase::Claim { head, .. } && m.head == head);
            assert(m2.contents() == m.contents().drop_first());
            assert(m.contents().len() > 0);
            assert(m.contents().drop_first().len() < m.contents().len());
            assert(false);
        }
        assert(won_item(m.items, p2) == Multiset::<T>::empty());
    } else {
        assert(won_item(m.items, p) == Multiset::<T>::empty());
        let c = m.contents();
        assert(c.remove(0) =~= c.drop_first());
        assert(won_item(m.items, p2) == Multiset::singleton(c[0]));
    }
    assert(s2.queue == m2 && s2.enq == s.enq && s2.deq == d2);
    assert forall|y: T| s2.submitted.to_multiset().count(y) == accounted_total(s2).count(y) by {
        assert(s.submitted.to_multiset().count(y) == accounted_total(s).count(y));
        assert(won_items(m.items, d2).add(won_item(m.items, p)).count(y) == won_items(
            m.items,
            s.deq,
        ).add(won_item(m.items, p2)).count(y));
        if p is Take {
            let n = claimed_node(p)->0 as int;
            assert(s2.delivered.to_multiset() == s.delivered.to_multiset().insert(m.items[n]->0));
        } else if m2.contents() != m.contents() {
            let c = m.contents();
            assert(c.remove(0).to_multiset() == c.to_multiset().remove(c[0]));
            assert(c.to_multiset().count(c[0]) > 0);
        }
    }
    assert(s2.submitted.to_multiset() =~= accounted_total(s2));
}

/// Law: any event keeps the queue system well formed and every item handed
/// in accounted for exactly once.
pub proof fn lemma_queue_apply_keeps<T>(s: QueueSystem<T>, tid: int, e: QueueEvent<T>)
    requires
        queue_system_ok(s.queue, s.enq, s.deq),
        queue_accounted(s),
        s.queue.items.len() + 1 < usize::MAX,
    ensures
        ({
            let s2 = queue_apply(s, tid, e);
            &&& queue_system_ok(s2.queue, s2.enq, s2.deq)
            &&& queue_accounted(s2)
            &&& s2.queue.items.len() <= s.queue.items.len() + 1
        }),
{
    match e {
        QueueEvent::StartEnqueue(x) => if 0 <= tid < s.enq.len() && s.enq[tid] is Done {
            lemma_start_enqueue(s, tid, x);
        },
        QueueEvent::EnqueueStep => if 0 <= tid < s.enq.len() && !(s.enq[tid] is Done) {
            lemma_enqueue_event(s, tid);
        },
        QueueEvent::StartDequeue => if 0 <= tid < s.deq.len() && s.deq[tid] is Done {
            lemma_start_dequeue(s, tid);
        },
        QueueEvent::DequeueStep => if 0 <= tid < s.deq.len() && !(s.deq[tid] is Done) {
            lemma_dequeue_event(s, tid);
        },
    }
}

/// Once no thread is busy, the items handed in are exactly those in the
/// queue and those returned.
pub proof fn lemma_queue_idle_accounts<T>(s: QueueSystem<T>)
    requires
        queue_accounted(s),
        forall|i: int| 0 <= i < s.enq.len() ==> (#[trigger] s.enq[i]) is Done,
        forall|i: int| 0 <= i < s.deq.len() ==> (#[trigger] s.deq[i]) is Done,
    ensures
        s.submitted.to_multiset() == s.queue.contents().to_multiset().add(s.delivered.to_multiset()),
{
    broadcast use vstd::multiset::group_multiset_axioms;

    lemma_all_idle(s.enq, s.queue.items, s.deq);
    assert(s.submitted.to_multiset() =~= s.queue.contents().to_multiset().add(
        s.delivered.to_multiset(),
    ));
}

proof fn lemma_queue_run_keeps<T>(s: QueueSystem<T>, events: Seq<(int, QueueEvent<T>)>)
    requires
        queue_system_ok(s.queue, s.enq, s.deq),
        queue_accounted(s),
        s.queue.items.len() + events.len() < usize::MAX,
    ensures
        ({
            let s2 = queue_run(s, events);
            queue_system_ok(s2.queue, s2.enq, s2.deq) && queue_accounted(s2)
        }),
    decreases events.len(),
{
    if events.len() > 0 {
        let (tid, e) = events[0];
        lemma_queue_apply_keeps(s, tid, e);
        lemma_queue_run_keeps(queue_apply(s, tid, e), events.drop_first());
    }
}

/// Law (no item lost or duplicated over whole runs): from a new queue and
/// idle enqueuers and dequeuers, after any run of fewer than
/// `usize::MAX - 1` events, the queue stays well formed, and every item
/// handed to an enqueue is, exactly once, carried by its enqueuer, in the
/// queue, in a node a dequeuer has won, or returned by a dequeue. Once
/// every thread is idle, the items handed in are exactly those in the queue
/// and those returned.
pub proof fn lemma_queue_run_accounts<T>(
    n_enq: nat,
    n_deq: nat,
    events: Seq<(int, QueueEvent<T>)>,
)
    requires
        events.len() + 1 < usize::MAX,
    ensures
        ({
            let s = queue_run(queue_initial::<T>(n_enq, n_deq), events);
            &&& queue_system_ok(s.queue, s.enq, s.deq)
            &&& queue_accounted(s)
            &&& (forall|i: int| 0 <= i < s.enq.len() ==> (#[trigger] s.enq[i]) is Done) && (forall|
                i: int,
            |
                0 <= i < s.deq.len() ==> (#[trigger] s.deq[i]) is Done) ==> s.submitted.to_multiset()
                == s.queue.contents().to_multiset().add(s.delivered.to_multiset())
        }),
{
    broadcast use vstd::multiset::group_multiset_axioms;
    broadcast use vstd::seq_lib::group_to_multiset_ensures;

    let s0 = queue_initial::<T>(n_enq, n_deq);
    lemma_all_idle(s0.enq, s0.queue.items, s0.deq);
    assert(s0.queue.contents() =~= Seq::<T>::empty());
    assert(s0.submitted.to_multiset() =~= accounted_total(s0));
    assert forall|k: int| 0 <= k < s0.deq.len() implies dequeue_phase_ok(
        #[trigger] s0.deq[k],
        s0.queue.items.len(),
    ) by {}
    assert forall|k: int| 0 <= k < s0.enq.len() implies enqueue_phase_ok(
        #[trigger] s0.enq[k],
        s0.queue.items.len(),
    ) by {}
    lemma_queue_run_keeps(s0, events);
    let s = queue_run(s0, events);
    if (forall|i: int| 0 <= i < s.enq.len() ==> (#[trigger] s.enq[i]) is Done) && (forall|i: int|
        0 <= i < s.deq.len() ==> (#[trigger] s.deq[i]) is Done) {
        lemma_queue_idle_accounts(s);
    }
}

} // verus!

verus! {

/// The items of `links` that thread `k` linked, in link order.
pub open spec fn items_of<T>(links: Seq<(int, T)>, k: int) -> Seq<T>
    decreases links.len(),
{
    if links.len() == 0 {
        Seq::empty()
    } else {
        let r = items_of(links.drop_last(), k);
        if links.last().0 == k {
            r.push(links.last().1)
        } else {
            r
        }
    }
}

/// The item an enqueuing thread at `phase` still carries, as a sequence.
pub open spec fn carried_seq<T>(phase: EnqueuePhase<T>) -> Seq<T> {
    match phase {
        EnqueuePhase::ReadTail { item, .. } => seq![item],
        EnqueuePhase::ReadNext { item, .. } => seq![item],
        EnqueuePhase::Link { item, .. } => seq![item],
        EnqueuePhase::Advance { item, .. } => seq![item],
        EnqueuePhase::Sleep { item, .. } => seq![item],
        _ => Seq::empty(),
    }
}

/// A queue system with the order of the run: what each enqueuer handed to
/// its enqueues, in order, and every link, in order, with the enqueuer that
/// made it and the item it linked.
pub struct OrderedQueueSystem<T> {
    pub sys: QueueSystem<T>,
    pub sent: Seq<Seq<T>>,
    pub links: Seq<(int, T)>,
}

pub open spec fn ordered_initial<T>(n_enq: nat, n_deq: nat) -> OrderedQueueSystem<T> {
    OrderedQueueSystem {
        sys: queue_initial(n_enq, n_deq),
        sent: Seq::new(n_enq, |i: int| Seq::<T>::empty()),
        links: Seq::empty(),
    }
}

/// The ordered system after thread `tid` does `e`.
pub open spec fn ordered_apply<T>(o: OrderedQueueSystem<T>, tid: int, e: QueueEvent<T>) -> OrderedQueueSystem<T> {
    let s = o.sys;
    OrderedQueueSystem {
        sys: queue_apply(s, tid, e),
        sent: match e {
            QueueEvent::StartEnqueue(x) => if 0 <= tid < s.enq.len() && s.enq[tid] is Done {
                o.sent.update(tid, o.sent[tid].push(x))
            } else {
                o.sent
            },
            _ => o.sent,
        },
        links: match e {
            QueueEvent::EnqueueStep => if 0 <= tid < s.enq.len() && (s.enq[tid] matches EnqueuePhase::Link {
                tail,
                ..
            } && tail == s.queue.last()) {
                o.links.push((tid, s.enq[tid]->Link_item))
            } else {
                o.links
            },
            _ => o.links,
        },
    }
}

/// The ordered system after the events, in order.
pub open spec fn ordered_run<T>(o: OrderedQueueSystem<T>, events: Seq<(int, QueueEvent<T>)>) -> OrderedQueueSystem<T>
    decreases events.len(),
{
    if events.len() == 0 {
        o
    } else {
        ordered_run(ordered_apply(o, events[0].0, events[0].1), events.drop_first())
    }
}

/// Node `n + 1` holds the item of link `n` until a dequeue takes it, and each
/// enqueuer's links, followed by the item it still carries, are exactly what
/// it handed to its enqueues, in order.
pub open spec fn ordered_ok<T>(o: OrderedQueueSystem<T>) -> bool {
    &&& o.links.len() + 1 == o.sys.queue.items.len()
    &&& forall|n: int|
        1 <= n < o.sys.queue.items.len() && (#[trigger] o.sys.queue.items[n]) is Some
            ==> o.sys.queue.items[n]->0 == o.links[n - 1].1
    &&& o.sent.len() == o.sys.enq.len()
    &&& forall|k: int|
        0 <= k < o.sent.len() ==> items_of(o.links, k) + carried_seq(o.sys.enq[k]) == #[trigger] o.sent[k]
}

proof fn lemma_items_of_push<T>(links: Seq<(int, T)>, l: (int, T), k: int)
    ensures
        items_of(links.push(l), k) == if l.0 == k {
            items_of(links, k).push(l.1)
        } else {
            items_of(links, k)
        },
{
    assert(links.push(l).drop_last() =~= links);
}

proof fn lemma_ordered_apply<T>(o: OrderedQueueSystem<T>, tid: int, e: QueueEvent<T>)
    requires
        queue_system_ok(o.sys.queue, o.sys.enq, o.sys.deq),
        ordered_ok(o),
        o.sys.queue.items.len() < usize::MAX,
    ensures
        ordered_ok(ordered_apply(o, tid, e)),
{
    let s = o.sys;
    let o2 = ordered_apply(o, tid, e);
    let s2 = o2.sys;
    match e {
        QueueEvent::StartEnqueue(x) => {
            if 0 <= tid < s.enq.len() && s.enq[tid] is Done {
                assert forall|k: int| 0 <= k < o2.sent.len() implies items_of(o2.links, k)
                    + carried_seq(s2.enq[k]) == #[trigger] o2.sent[k] by {
                    if k == tid {
                        assert(items_of(o.links, k) + carried_seq(s.enq[k]) == o.sent[k]);
                        assert(carried_seq(s.enq[k]) =~= Seq::<T>::empty());
                        assert(items_of(o.links, k) =~= o.sent[k]);
                        assert(items_of(o.links, k) + seq![x] =~= o.sent[k].push(x));
                    } else {
                        assert(items_of(o.links, k) + carried_seq(s.enq[k]) == o.sent[k]);
                    }
                }
            }
        },
        QueueEvent::EnqueueStep => {
            if 0 <= tid < s.enq.len() && !(s.enq[tid] is Done) {
                let p = s.enq[tid];
                let (m2, p2) = enqueue_transition(s.queue, p);
                let linked = p matches EnqueuePhase::Link { tail, .. } && tail == s.queue.last();
                assert forall|n: int|
                    1 <= n < s2.queue.items.len() && (#[trigger] s2.queue.items[n]) is Some
                        implies s2.queue.items[n]->0 == o2.links[n - 1].1 by {
                    if n < s.queue.items.len() {
                        assert(s2.queue.items[n] == s.queue.items[n]);
                    }
                }
                assert forall|k: int| 0 <= k < o2.sent.len() implies items_of(o2.links, k)
                    + carried_seq(s2.enq[k]) == #[trigger] o2.sent[k] by {
                    assert(items_of(o.links, k) + carried_seq(s.enq[k]) == o.sent[k]);
                    if linked {
                        lemma_items_of_push(o.links, (tid, p->Link_item), k);
                        if k == tid {
                            assert(items_of(o.links, k).push(p->Link_item) + carried_seq(p2)
                                =~= items_of(o.links, k) + carried_seq(p));
                        }
                    } else if k == tid {
                        assert(carried_seq(p2) == carried_seq(p));
                    }
                }
            }
        },
        QueueEvent::StartDequeue => {},
        QueueEvent::DequeueStep => {
            if 0 <= tid < s.deq.len() && !(s.deq[tid] is Done) {
                let (m2, p2) = dequeue_transition(s.queue, s.deq[tid]);
                assert forall|n: int|
                    1 <= n < s2.queue.items.len() && (#[trigger] s2.queue.items[n]) is Some
                        implies s2.queue.items[n]->0 == o2.links[n - 1].1 by {
                    assert(s2.queue.items[n] is Some ==> s2.queue.items[n] == s.queue.items[n]);
                }
                assert forall|k: int| 0 <= k < o2.sent.len() implies items_of(o2.links, k)
                    + carried_seq(s2.enq[k]) == #[trigger] o2.sent[k] by {
                    assert(items_of(o.links, k) + carried_seq(s.enq[k]) == o.sent[k]);
                }
            }
        },
    }
}

proof fn lemma_ordered_run<T>(o: OrderedQueueSystem<T>, events: Seq<(int, QueueEvent<T>)>)
    requires
        queue_system_ok(o.sys.queue, o.sys.enq, o.sys.deq),
        queue_accounted(o.sys),
        ordered_ok(o),
        o.sys.queue.items.len() + events.len() < usize::MAX,
    ensures
        ordered_ok(ordered_run(o, events)),
        ordered_run(o, events).sys == queue_run(o.sys, events),
    decreases events.len(),
{
    if events.len() > 0 {
        let (tid, e) = events[0];
        lemma_ordered_apply(o, tid, e);
        match e {
            QueueEvent::StartEnqueue(x) => if 0 <= tid < o.sys.enq.len() && o.sys.enq[tid] is Done {
                lemma_start_enqueue(o.sys, tid, x);
            },
            QueueEvent::EnqueueStep => if 0 <= tid < o.sys.enq.len() && !(o.sys.enq[tid] is Done) {
                lemma_enqueue_event(o.sys, tid);
            },
            QueueEvent::StartDequeue => if 0 <= tid < o.sys.deq.len() && o.sys.deq[tid] is Done {
                lemma_start_dequeue(o.sys, tid);
            },
            QueueEvent::DequeueStep => if 0 <= tid < o.sys.deq.len() && !(o.sys.deq[tid] is Done) {
                lemma_dequeue_event(o.sys, tid);
            },
        }
        lemma_ordered_run(ordered_apply(o, tid, e), events.drop_first());
    }
}

/// Law (each enqueuer's order over whole runs): from a new queue and idle
/// threads, after any run of fewer than `usize::MAX - 1` events, the links
/// of each enqueuer, followed by the item it still carries, are exactly the
/// items it handed to its enqueues, in order; and the queue holds the items
/// of the links after the head, in link order. So once the enqueuers are
/// idle, dequeuing what is left returns each enqueuer's remaining items in
/// the order it enqueued them.
pub proof fn lemma_queue_run_keeps_enqueuer_order<T>(
    n_enq: nat,
    n_deq: nat,
    events: Seq<(int, QueueEvent<T>)>,
)
    requires
        events.len() + 1 < usize::MAX,
    ensures
        ({
            let o = ordered_run(ordered_initial::<T>(n_enq, n_deq), events);
            &&& o.sys == queue_run(queue_initial::<T>(n_enq, n_deq), events)
            &&& o.sent.len() == o.sys.enq.len()
            &&& forall|k: int|
                0 <= k < o.sent.len() ==> items_of(o.links, k) + carried_seq(o.sys.enq[k])
                    == #[trigger] o.sent[k]
            &&& o.sys.queue.contents() == o.links.subrange(
                o.sys.queue.head as int,
                o.links.len() as int,
            ).map_values(|l: (int, T)| l.1)
        }),
{
    let o0 = ordered_initial::<T>(n_enq, n_deq);
    lemma_queue_run_accounts(n_enq, n_deq, Seq::<(int, QueueEvent<T>)>::empty());
    assert(queue_run(o0.sys, Seq::<(int, QueueEvent<T>)>::empty()) == o0.sys);
    assert forall|k: int| 0 <= k < o0.sent.len() implies items_of(o0.links, k) + carried_seq(
        o0.sys.enq[k],
    ) == #[trigger] o0.sent[k] by {
        assert(items_of(o0.links, k) + carried_seq(o0.sys.enq[k]) =~= o0.sent[k]);
    }
    lemma_ordered_run(o0, events);
    lemma_queue_run_accounts(n_enq, n_deq, events);
    let o = ordered_run(o0, events);
    let m = o.sys.queue;
    assert(o.sys.queue.contents() =~= o.links.subrange(m.head as int, o.links.len() as int).map_values(
        |l: (int, T)| l.1,
    )) by {
        assert forall|j: int| 0 <= j < m.contents().len() implies m.contents()[j] == o.links[m.head
            + j].1 by {
            assert(m.items[m.head + 1 + j] is Some);
        }
    }
}

} // verus!

verus! {

/// One instruction of an enqueue or a dequeue, on the words of the queue: the
/// head and the tail, and each node's link to its successor and its item.
#[derive(Clone, Copy, Debug, PartialEq, Eq, Structural)]
pub enum QueueAction {
    /// Load the tail; returns the node it points at.
    LoadTail,
    /// Load the head; returns the node it points at.
    LoadHead,
    /// Load the link of this node; returns its successor, if any.
    LoadNext(usize),
    /// Link the enqueuer's new node after this node, if it has no successor
    /// yet; returns the new node when the link was made.
    Link(usize),
    /// Swing the tail from the first node to the second if it still points at
    /// the first; what it returns is not used.
    SwingTail(usize, usize),
    /// Swing the head from the first node to the second if it still points at
    /// the first; returns the second node when it did.
    SwingHead(usize, usize),
    /// Take the item out of this node.
    TakeItem(usize),
    /// Sleep for this many nanoseconds.
    Backoff(u64),
    /// The operation has finished.
    Finished,
}

pub open spec fn spec_enqueue_action<T>(phase: EnqueuePhase<T>) -> QueueAction {
    match phase {
        EnqueuePhase::ReadTail { .. } => QueueAction::LoadTail,
        EnqueuePhase::ReadNext { tail, .. } => QueueAction::LoadNext(tail),
        EnqueuePhase::Link { tail, .. } => QueueAction::Link(tail),
        EnqueuePhase::Advance { tail, next, .. } => QueueAction::SwingTail(tail, next),
        EnqueuePhase::Sleep { backoff, .. } => QueueAction::Backoff(backoff),
        EnqueuePhase::Swing { tail, node } => QueueAction::SwingTail(tail, node),
        EnqueuePhase::Done => QueueAction::Finished,
    }
}

/// The phase that follows `phase` once its instruction returned `observed`.
pub open spec fn spec_enqueue_advance<T>(phase: EnqueuePhase<T>, observed: Option<usize>) -> EnqueuePhase<T> {
    match phase {
        EnqueuePhase::ReadTail { item, backoff } => match observed {
            Some(tail) => EnqueuePhase::ReadNext { item, backoff, tail },
            None => EnqueuePhase::ReadTail { item, backoff },
        },
        EnqueuePhase::ReadNext { item, backoff, tail } => match observed {
            None => EnqueuePhase::Link { item, backoff, tail },
            Some(next) => EnqueuePhase::Advance { item, backoff, tail, next },
        },
        EnqueuePhase::Link { item, backoff, tail } => match observed {
            Some(node) => EnqueuePhase::Swing { tail, node },
            None => EnqueuePhase::Sleep { item, backoff },
        },
        EnqueuePhase::Advance { item, backoff, .. } => EnqueuePhase::ReadTail { item, backoff },
        EnqueuePhase::Sleep { item, backoff } => EnqueuePhase::ReadTail {
            item,
            backoff: doubled_backoff(backoff),
        },
        EnqueuePhase::Swing { .. } => EnqueuePhase::Done,
        EnqueuePhase::Done => EnqueuePhase::Done,
    }
}

pub open spec fn spec_dequeue_action<T>(phase: DequeuePhase<T>) -> QueueAction {
    match phase {
        DequeuePhase::ReadHead { .. } => QueueAction::LoadHead,
        DequeuePhase::ReadNext { head, .. } => QueueAction::LoadNext(head),
        DequeuePhase::Claim { head, next, .. } => QueueAction::SwingHead(head, next),
        DequeuePhase::Sleep { backoff } => QueueAction::Backoff(backoff),
        DequeuePhase::Take { node } => QueueAction::TakeItem(node),
        DequeuePhase::Done(_) => QueueAction::Finished,
    }
}

/// The phase that follows `phase` once its instruction returned `observed`;
/// `taken` is the item that taking an item returned.
pub open spec fn spec_dequeue_advance<T>(phase: DequeuePhase<T>, observed: Option<usize>, taken: Option<T>) -> DequeuePhase<T> {
    match phase {
        DequeuePhase::ReadHead { backoff } => match observed {
            Some(head) => DequeuePhase::ReadNext { backoff, head },
            None => DequeuePhase::ReadHead { backoff },
        },
        DequeuePhase::ReadNext { backoff, head } => match observed {
            None => DequeuePhase::Done(None),
            Some(next) => DequeuePhase::Claim { backoff, head, next },
        },
        DequeuePhase::Claim { backoff, next, .. } => match observed {
            Some(_) => DequeuePhase::Take { node: next },
            None => DequeuePhase::Sleep { backoff },
        },
        DequeuePhase::Sleep { backoff } => DequeuePhase::ReadHead {
            backoff: doubled_backoff(backoff),
        },
        DequeuePhase::Take { .. } => DequeuePhase::Done(taken),
        DequeuePhase::Done(r) => DequeuePhase::Done(r),
    }
}

/// The queue after `action`, what the instruction returns, and the item it
/// takes out; `item` is the item of the node a link adds. In a well-formed
/// queue the successor of node `k` is node `k + 1`, and the last node has
/// none.
pub open spec fn queue_action_effect<T>(m: QueueModel<T>, action: QueueAction, item: Option<T>) -> (
    QueueModel<T>,
    Option<usize>,
    Option<T>,
) {
    match action {
        QueueAction::LoadTail => (m, Some(m.tail as usize), None),
        QueueAction::LoadHead => (m, Some(m.head as usize), None),
        QueueAction::LoadNext(n) => (
            m,
            if n == m.last() {
                None
            } else {
                Some((n + 1) as usize)
            },
            None,
        ),
        QueueAction::Link(t) => if t == m.last() {
            (QueueModel { items: m.items.push(item), ..m }, Some(m.items.len() as usize), None)
        } else {
            (m, None, None)
        },
        QueueAction::SwingTail(a, b) => (
            QueueModel {
                tail: if m.tail == a {
                    b as nat
                } else {
                    m.tail
                },
                ..m
            },
            None,
            None,
        ),
        QueueAction::SwingHead(a, b) => if m.head == a {
            (QueueModel { head: b as nat, ..m }, Some(b), None)
        } else {
            (m, None, None)
        },
        QueueAction::TakeItem(n) => (
            QueueModel { items: m.items.update(n as int, None), ..m },
            None,
            m.items[n as int],
        ),
        _ => (m, None, None),
    }
}

/// The item an enqueuer at `phase` would put in the node it links.
pub open spec fn link_item<T>(phase: EnqueuePhase<T>) -> Option<T> {
    match phase {
        EnqueuePhase::Link { item, .. } => Some(item),
        _ => None,
    }
}

/// The instruction an enqueuer at `phase` issues next.
pub fn enqueue_action<T>(phase: &EnqueuePhase<T>) -> (r: QueueAction)
    ensures
        r == spec_enqueue_action(*phase),
{
    match phase {
        EnqueuePhase::ReadTail { .. } => QueueAction::LoadTail,
        EnqueuePhase::ReadNext { tail, .. } => QueueAction::LoadNext(*tail),
        EnqueuePhase::Link { tail, .. } => QueueAction::Link(*tail),
        EnqueuePhase::Advance { tail, next, .. } => QueueAction::SwingTail(*tail, *next),
        EnqueuePhase::Sleep { backoff, .. } => QueueAction::Backoff(*backoff),
        EnqueuePhase::Swing { tail, node } => QueueAction::SwingTail(*tail, *node),
        EnqueuePhase::Done => QueueAction::Finished,
    }
}

/// The phase that follows `phase` of an enqueuer once its instruction
/// returned `observed`.
pub fn enqueue_advance<T>(phase: EnqueuePhase<T>, observed: Option<usize>) -> (r: EnqueuePhase<T>)
    ensures
        r == spec_enqueue_advance(phase, observed),
{
    match phase {
        EnqueuePhase::ReadTail { item, backoff } => match observed {
            Some(tail) => EnqueuePhase::ReadNext { item, backoff, tail },
            None => EnqueuePhase::ReadTail { item, backoff },
        },
        EnqueuePhase::ReadNext { item, backoff, tail } => match observed {
            None => EnqueuePhase::Link { item, backoff, tail },
            Some(next) => EnqueuePhase::Advance { item, backoff, tail, next },
        },
        EnqueuePhase::Link { item, backoff, tail } => match observed {
            Some(node) => EnqueuePhase::Swing { tail, node },
            None => EnqueuePhase::Sleep { item, backoff },
        },
        EnqueuePhase::Advance { item, backoff, .. } => EnqueuePhase::ReadTail { item, backoff },
        EnqueuePhase::Sleep { item, backoff } => EnqueuePhase::ReadTail {
            item,
            backoff: next_backoff(backoff),
        },
        EnqueuePhase::Swing { .. } => EnqueuePhase::Done,
        EnqueuePhase::Done => EnqueuePhase::Done,
    }
}

/// The instruction a dequeuer at `phase` issues next.
pub fn dequeue_action<T>(phase: &DequeuePhase<T>) -> (r: QueueAction)
    ensures
        r == spec_dequeue_action(*phase),
{
    match phase {
        DequeuePhase::ReadHead { .. } => QueueAction::LoadHead,
        DequeuePhase::ReadNext { head, .. } => QueueAction::LoadNext(*head),
        DequeuePhase::Claim { head, next, .. } => QueueAction::SwingHead(*head, *next),
        DequeuePhase::Sleep { backoff } => QueueAction::Backoff(*backoff),
        DequeuePhase::Take { node } => QueueAction::TakeItem(*node),
        DequeuePhase::Done(_) => QueueAction::Finished,
    }
}

/// The phase that follows `phase` of a dequeuer once its instruction
/// returned `observed`, and taking an item returned `taken`.
pub fn dequeue_advance<T>(phase: DequeuePhase<T>, observed: Option<usize>, taken: Option<T>) -> (r: DequeuePhase<T>)
    ensures
        r == spec_dequeue_advance(phase, observed, taken),
{
    match phase {
        DequeuePhase::ReadHead { backoff } => match observed {
            Some(head) => DequeuePhase::ReadNext { backoff, head },
            None => DequeuePhase::ReadHead { backoff },
        },
        DequeuePhase::ReadNext { backoff, head } => match observed {
            None => DequeuePhase::Done(None),
            Some(next) => DequeuePhase::Claim { backoff, head, next },
        },
        DequeuePhase::Claim { backoff, next, .. } => match observed {
            Some(_) => DequeuePhase::Take { node: next },
            None => DequeuePhase::Sleep { backoff },
        },
        DequeuePhase::Sleep { backoff } => DequeuePhase::ReadHead {
            backoff: next_backoff(backoff),
        },
        DequeuePhase::Take { .. } => DequeuePhase::Done(taken),
        DequeuePhase::Done(r) => DequeuePhase::Done(r),
    }
}

/// Law: an enqueue instruction, taken as its action and the phase that
/// follows what the action returns, is exactly the enqueue's transition on
/// a well-formed queue.
pub proof fn lemma_enqueue_action_is_transition<T>(m: QueueModel<T>, phase: EnqueuePhase<T>)
    requires
        m.wf(),
        enqueue_phase_ok(phase, m.items.len()),
    ensures
        ({
            let (m2, observed, _) = queue_action_effect(m, spec_enqueue_action(phase), link_item(phase));
            enqueue_transition(m, phase) == (m2, spec_enqueue_advance(phase, observed))
        }),
{
}

/// Law: a dequeue instruction, taken as its action and the phase that
/// follows what the action returns, is exactly the dequeue's transition on
/// a well-formed queue.
pub proof fn lemma_dequeue_action_is_transition<T>(m: QueueModel<T>, phase: DequeuePhase<T>)
    requires
        m.wf(),
        dequeue_phase_ok(phase, m.items.len()),
    ensures
        ({
            let (m2, observed, taken) = queue_action_effect(m, spec_dequeue_action(phase), None);
            dequeue_transition(m, phase) == (m2, spec_dequeue_advance(phase, observed, taken))
        }),
{
}

} // verus!
