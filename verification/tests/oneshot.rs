use lock_free::oneshot::channel;

#[test]
fn oneshot_send_receive() {
    let data = String::from("payload");
    let (tx, rx, mut ch) = channel();
    assert_eq!(rx.receive(&mut ch), None);
    tx.send(&mut ch, data.clone());
    assert!(ch.is_ready());
    assert_eq!(rx.receive(&mut ch), Some(data));
    assert!(!ch.is_ready());
    assert_eq!(rx.receive(&mut ch), None);
}
