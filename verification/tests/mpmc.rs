use lock_free::mpmc::{
    channel, poll_after_empty, send_after_check, ReceivePhase, ReceivePoll, SendError, SendPhase,
};
use lock_free::queue::{DequeuePhase, EnqueuePhase};

#[test]
fn test_send_error() {
    let (tx, rx, mut ch) = channel::<()>();
    rx.drop_handle(&mut ch);
    assert!(matches!(tx.send(&mut ch, ()), Err(SendError)));
}

#[test]
fn test_receive_none() {
    let (tx, rx, mut ch) = channel::<()>();
    tx.drop_handle(&mut ch);
    assert_eq!(rx.receive(&mut ch), None);
}

#[test]
fn mpmc_send_receive_in_order() {
    let data = vec!["a".to_string(), "bc".to_string(), String::new(), "d".to_string()];
    let (tx, rx, mut ch) = channel();
    for item in data.clone() {
        tx.send(&mut ch, item).unwrap();
    }
    assert_eq!(ch.len(), 4);
    tx.drop_handle(&mut ch);
    let mut res = vec![];
    while let Some(item) = rx.receive(&mut ch) {
        res.push(item);
    }
    assert_eq!(res, data);
}

#[test]
fn mpmc_counts_follow_clones_and_drops() {
    let (tx, rx, mut ch) = channel::<u8>();
    assert_eq!(ch.senders(), 1);
    assert_eq!(ch.receivers(), 1);
    let tx2 = tx.clone_handle(&mut ch);
    let rx2 = rx.clone_handle(&mut ch);
    assert_eq!(ch.senders(), 2);
    assert_eq!(ch.receivers(), 2);
    tx.send(&mut ch, 1).unwrap();
    tx2.send(&mut ch, 2).unwrap();
    tx.drop_handle(&mut ch);
    assert_eq!(rx2.receive(&mut ch), Some(1));
    assert!(matches!(rx.receive_step(&mut ch), ReceivePoll::Item(2)));
    // A sender is still alive: an empty channel asks the receiver to spin.
    assert!(matches!(rx.receive_step(&mut ch), ReceivePoll::Empty));
    tx2.drop_handle(&mut ch);
    assert!(matches!(rx.receive_step(&mut ch), ReceivePoll::Closed));
    rx.drop_handle(&mut ch);
    rx2.drop_handle(&mut ch);
    assert_eq!(ch.receivers(), 0);
}

/// A send and a receive taken one instruction at a time: the receiver finds
/// the queue empty and the sender alive, then the send lands.
#[test]
fn mpmc_steps_one_instruction_at_a_time() {
    let (tx, rx, mut ch) = channel::<u8>();
    let mut r = ReceivePhase::Dequeue(DequeuePhase::ReadHead { backoff: 1 });
    r = rx.receive_phase_step(&mut ch, r);
    r = rx.receive_phase_step(&mut ch, r);
    assert!(matches!(r, ReceivePhase::CheckSenders));
    r = rx.receive_phase_step(&mut ch, r);
    assert!(matches!(r, ReceivePhase::Done(ReceivePoll::Empty)));

    let mut s = SendPhase::Check(9);
    s = tx.send_step(&mut ch, s);
    assert!(matches!(s, SendPhase::Enqueue(_)));
    while !matches!(s, SendPhase::Done(_)) {
        s = tx.send_step(&mut ch, s);
    }
    assert!(matches!(s, SendPhase::Done(Ok(()))));
    assert_eq!(ch.len(), 1);

    let mut r = ReceivePhase::Dequeue(DequeuePhase::ReadHead { backoff: 1 });
    while !matches!(r, ReceivePhase::Done(_)) {
        r = rx.receive_phase_step(&mut ch, r);
    }
    assert!(matches!(r, ReceivePhase::Done(ReceivePoll::Item(9))));

    rx.drop_handle(&mut ch);
    let s = tx.send_step(&mut ch, SendPhase::Check(1));
    assert!(matches!(s, SendPhase::Done(Err(SendError))));
}

#[test]
fn mpmc_send_and_receive_decisions() {
    assert!(matches!(send_after_check(5u8, 0), SendPhase::Done(Err(_))));
    assert!(matches!(
        send_after_check(5u8, 2),
        SendPhase::Enqueue(EnqueuePhase::ReadTail { item: 5, .. })
    ));
    assert!(matches!(poll_after_empty::<u8>(0), ReceivePoll::Closed));
    assert!(matches!(poll_after_empty::<u8>(3), ReceivePoll::Empty));
}
