use lock_free::queue::{
    dequeue_action, dequeue_advance, enqueue_action, enqueue_advance, next_backoff, DequeuePhase,
    EnqueuePhase, Queue, QueueAction, DEQUEUE_INITIAL_BACKOFF_NANOS, INITIAL_BACKOFF_NANOS,
    MAX_BACKOFF_NANOS,
};

#[test]
fn test_pointers() {
    let items = [7usize, 11, 13];
    let mut q: Queue<usize> = Queue::new();
    let head_0 = q.head_node();
    let tail_0 = q.tail_node();
    assert_eq!(head_0, tail_0);

    assert_eq!(q.dequeue(), None);
    assert_eq!(q.head_node(), head_0);
    assert_eq!(q.tail_node(), tail_0);

    q.enqueue(items[0]);
    let tail_2 = q.tail_node();
    assert_ne!(q.head_node(), tail_2);
    assert_eq!(q.head_node(), head_0);

    q.enqueue(items[1]);
    let tail_3 = q.tail_node();
    assert_ne!(q.head_node(), tail_3);
    assert_eq!(q.head_node(), head_0);

    q.enqueue(items[2]);
    let tail_4 = q.tail_node();
    assert_ne!(q.head_node(), tail_4);
    assert_eq!(q.head_node(), head_0);

    assert_eq!(q.dequeue(), Some(items[0]));
    assert_eq!(q.head_node(), tail_2);
    assert_eq!(q.tail_node(), tail_4);

    assert_eq!(q.dequeue(), Some(items[1]));
    assert_eq!(q.head_node(), tail_3);
    assert_eq!(q.tail_node(), tail_4);

    assert_eq!(q.dequeue(), Some(items[2]));
    assert_eq!(q.head_node(), tail_4);
    assert_eq!(q.tail_node(), tail_4);

    assert_eq!(q.dequeue(), None);
    assert_eq!(q.head_node(), tail_4);
    assert_eq!(q.tail_node(), tail_4);
}

#[test]
fn test_fill_and_empty_repeatedly() {
    for (test_size, num_repeats) in [(1usize, 1usize), (5, 3), (100, 9)] {
        let mut q = Queue::new();
        for _ in 0..num_repeats {
            for item in 0..test_size {
                q.enqueue(item);
            }
            for _ in 0..test_size {
                q.dequeue();
            }
        }
        for item in 0..test_size {
            q.enqueue(item);
        }
        let mut res = vec![];
        while let Some(item) = q.dequeue() {
            res.push(item);
        }
        assert_eq!(res, Vec::from_iter(0..test_size));
    }
}

#[test]
fn test_is_empty() {
    for test_size in [1usize, 2, 50] {
        let mut q: Queue<usize> = Queue::new();
        assert!(q.is_empty());
        for item in 0..test_size {
            q.enqueue(item);
            assert!(!q.is_empty());
        }
        for _ in 0..test_size {
            assert!(!q.is_empty());
            q.dequeue();
        }
        assert!(q.is_empty());
    }
}

#[test]
fn queue_len_and_default() {
    let mut q: Queue<&str> = Queue::default();
    assert_eq!(q.len(), 0);
    q.enqueue("a");
    q.enqueue("b");
    assert_eq!(q.len(), 2);
    assert_eq!(q.node_count(), 3);
    assert_eq!(q.dequeue(), Some("a"));
    assert_eq!(q.len(), 1);
    assert_eq!(q.node_count(), 3);
}

#[test]
fn backoff_doubles_up_to_the_cap() {
    assert_eq!(next_backoff(INITIAL_BACKOFF_NANOS), 2);
    assert_eq!(next_backoff(2), 4);
    assert_eq!(next_backoff(49), 98);
    assert_eq!(next_backoff(50), MAX_BACKOFF_NANOS);
    assert_eq!(next_backoff(64), MAX_BACKOFF_NANOS);
    assert_eq!(next_backoff(DEQUEUE_INITIAL_BACKOFF_NANOS), MAX_BACKOFF_NANOS);
    assert_eq!(next_backoff(u64::MAX), MAX_BACKOFF_NANOS);
}

/// Two enqueuers that both read the same tail: the first links its node,
/// the second loses the race, backs off, then finds the tail lagging and
/// swings it forward before linking after the first node.
#[test]
fn interleaved_enqueuers_link_in_order() {
    let mut q: Queue<u32> = Queue::new();
    let a = q.enqueue_step(EnqueuePhase::ReadTail { item: 1, backoff: INITIAL_BACKOFF_NANOS });
    let b = q.enqueue_step(EnqueuePhase::ReadTail { item: 2, backoff: INITIAL_BACKOFF_NANOS });
    let a = q.enqueue_step(a);
    let b = q.enqueue_step(b);
    assert!(matches!(a, EnqueuePhase::Link { tail: 0, .. }));
    assert!(matches!(b, EnqueuePhase::Link { tail: 0, .. }));
    // The first link wins; the tail still points at the sentinel.
    let a = q.enqueue_step(a);
    assert!(matches!(a, EnqueuePhase::Swing { tail: 0, node: 1 }));
    assert_eq!(q.tail_node(), 0);
    // The second link loses and backs off with a doubled backoff.
    let b = q.enqueue_step(b);
    assert!(matches!(b, EnqueuePhase::Sleep { backoff: 1, .. }));
    let b = q.enqueue_step(b);
    assert!(matches!(b, EnqueuePhase::ReadTail { backoff: 2, .. }));
    // The second enqueuer sees the lagging tail and helps it forward.
    let b = q.enqueue_step(b);
    let b = q.enqueue_step(b);
    assert!(matches!(b, EnqueuePhase::Advance { tail: 0, next: 1, .. }));
    let b = q.enqueue_step(b);
    assert_eq!(q.tail_node(), 1);
    // The first enqueuer's swing now fails harmlessly.
    let a = q.enqueue_step(a);
    assert!(matches!(a, EnqueuePhase::Done));
    assert_eq!(q.tail_node(), 1);
    let mut b = b;
    while !b.is_done() {
        b = q.enqueue_step(b);
    }
    assert_eq!(q.tail_node(), 2);
    assert_eq!(q.dequeue(), Some(1));
    assert_eq!(q.dequeue(), Some(2));
    assert_eq!(q.dequeue(), None);
}

/// Two dequeuers that both read the same head: one wins the item, the
/// other backs off and then finds the queue empty.
#[test]
fn interleaved_dequeuers_take_each_item_once() {
    let mut q: Queue<u32> = Queue::new();
    q.enqueue(5);
    let start = DequeuePhase::ReadHead { backoff: DEQUEUE_INITIAL_BACKOFF_NANOS };
    let a = q.dequeue_step(start);
    let b = q.dequeue_step(DequeuePhase::ReadHead { backoff: DEQUEUE_INITIAL_BACKOFF_NANOS });
    let a = q.dequeue_step(a);
    let b = q.dequeue_step(b);
    assert!(matches!(a, DequeuePhase::Claim { head: 0, next: 1, .. }));
    assert!(matches!(b, DequeuePhase::Claim { head: 0, next: 1, .. }));
    let a = q.dequeue_step(a);
    assert!(matches!(a, DequeuePhase::Take { node: 1 }));
    assert!(q.is_empty());
    let b = q.dequeue_step(b);
    assert!(matches!(b, DequeuePhase::Sleep { .. }));
    let b = q.dequeue_step(b);
    assert!(matches!(b, DequeuePhase::ReadHead { backoff: MAX_BACKOFF_NANOS }));
    let a = q.dequeue_step(a);
    assert!(matches!(a, DequeuePhase::Done(Some(5))));
    let b = q.dequeue_step(b);
    let b = q.dequeue_step(b);
    assert!(matches!(b, DequeuePhase::Done(None)));
}

#[test]
fn enqueue_actions_follow_the_phases() {
    let p = EnqueuePhase::ReadTail { item: 7u32, backoff: INITIAL_BACKOFF_NANOS };
    assert_eq!(enqueue_action(&p), QueueAction::LoadTail);
    let p = enqueue_advance(p, Some(4));
    assert!(matches!(p, EnqueuePhase::ReadNext { item: 7, tail: 4, .. }));
    assert_eq!(enqueue_action(&p), QueueAction::LoadNext(4));
    // A successor: help the tail forward, then start over.
    let q = enqueue_advance(p, Some(5));
    assert!(matches!(q, EnqueuePhase::Advance { tail: 4, next: 5, .. }));
    assert_eq!(enqueue_action(&q), QueueAction::SwingTail(4, 5));
    // No successor: link after the tail; a lost link backs off, a won one swings.
    let p = enqueue_advance(EnqueuePhase::ReadNext { item: 7u32, backoff: 1, tail: 4 }, None);
    assert_eq!(enqueue_action(&p), QueueAction::Link(4));
    let lost = enqueue_advance(EnqueuePhase::Link { item: 7u32, backoff: 1, tail: 4 }, None);
    assert!(matches!(lost, EnqueuePhase::Sleep { item: 7, backoff: 1 }));
    assert_eq!(enqueue_action(&lost), QueueAction::Backoff(1));
    assert!(matches!(enqueue_advance(lost, None), EnqueuePhase::ReadTail { backoff: 2, .. }));
    let won = enqueue_advance(p, Some(9));
    assert!(matches!(won, EnqueuePhase::Swing { tail: 4, node: 9 }));
    assert_eq!(enqueue_action(&won), QueueAction::SwingTail(4, 9));
    assert!(enqueue_advance(won, None).is_done());
}

#[test]
fn dequeue_actions_follow_the_phases() {
    let p: DequeuePhase<u32> = DequeuePhase::ReadHead { backoff: DEQUEUE_INITIAL_BACKOFF_NANOS };
    assert_eq!(dequeue_action(&p), QueueAction::LoadHead);
    let p = dequeue_advance(p, Some(3), None);
    assert_eq!(dequeue_action(&p), QueueAction::LoadNext(3));
    // No successor: the queue is empty.
    let empty = dequeue_advance(DequeuePhase::<u32>::ReadNext { backoff: 1, head: 3 }, None, None);
    assert!(matches!(empty, DequeuePhase::Done(None)));
    let p = dequeue_advance(p, Some(4), None);
    assert_eq!(dequeue_action(&p), QueueAction::SwingHead(3, 4));
    // A lost claim backs off; a won one takes the item of the new head.
    let lost = dequeue_advance(DequeuePhase::<u32>::Claim { backoff: 20, head: 3, next: 4 }, None, None);
    assert!(matches!(lost, DequeuePhase::Sleep { backoff: 20 }));
    assert_eq!(dequeue_action(&lost), QueueAction::Backoff(20));
    let p = dequeue_advance(p, Some(4), None);
    assert_eq!(dequeue_action(&p), QueueAction::TakeItem(4));
    let p = dequeue_advance(p, None, Some(11));
    assert!(matches!(p, DequeuePhase::Done(Some(11))));
    assert_eq!(dequeue_action(&p), QueueAction::Finished);
}
