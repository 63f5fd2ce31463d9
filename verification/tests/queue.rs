use sleipnir::queue::Dispatcher;

#[test]
fn test_backpressure_drops_beyond_capacity() {
    let (tx, rx) = flume::bounded::<Vec<u8>>(2);
    let mut d = Dispatcher::new(tx);

    // the first `capacity` offers fit; nobody drains the queue
    assert!(d.offer(b"one 1.0 1".to_vec()));
    assert!(d.offer(b"two 2.0 2".to_vec()));

    // every further offer returns immediately refused and is counted
    assert!(!d.offer(b"three 3.0 3".to_vec()));
    assert!(!d.offer(b"four 4.0 4".to_vec()));
    assert!(!d.offer(b"five 5.0 5".to_vec()));
    assert_eq!(d.dropped(), 3);

    // the queued lines are intact and in order
    assert_eq!(rx.try_recv().unwrap(), b"one 1.0 1".to_vec());
    assert_eq!(rx.try_recv().unwrap(), b"two 2.0 2".to_vec());

    // after draining there is room again
    assert!(d.offer(b"six 6.0 6".to_vec()));
    assert_eq!(d.dropped(), 3);
}

#[test]
fn test_offer_counts_disconnected_receiver() {
    let (tx, rx) = flume::bounded::<Vec<u8>>(8);
    let mut d = Dispatcher::new(tx);
    drop(rx);
    assert!(!d.offer(b"a 1.0 1".to_vec()));
    assert_eq!(d.dropped(), 1);
}
