use sleipnir::worker::FlushTrigger;
use sleipnir::worker::Worker;

#[test]
fn test_size_trigger_flushes_once_in_order() {
    let mut w = Worker::new(3, 5, 0);

    assert!(w.ingest(b"a 1.0 10", 0).is_none());
    assert!(w.ingest(b"b 2.0 20", 0).is_none());
    let flush = w.ingest(b"c 3.0 30", 1).expect("third line reaches the batch size");

    assert_eq!(flush.trigger, FlushTrigger::Size);
    assert_eq!(flush.rows.len(), 3);
    assert_eq!(flush.rows[0].timestamp, 10);
    assert_eq!(flush.rows[1].timestamp, 20);
    assert_eq!(flush.rows[2].timestamp, 30);
    assert_eq!(flush.rows[0].value, b"1.0".to_vec());
    assert_eq!(flush.rows[1].value, b"2.0".to_vec());
    assert_eq!(flush.rows[2].value, b"3.0".to_vec());
    assert_eq!(w.batch_len(), 0);

    // no second flush without new input
    assert!(w.idle_tick(0).is_none());
}

#[test]
fn test_time_trigger_flushes_buffered_rows() {
    let mut w = Worker::new(10, 5, 0);

    assert!(w.ingest(b"a 1.0 10", 0).is_none());
    assert!(w.ingest(b"b 2.0 20", 0).is_none());

    // interval not yet elapsed
    assert!(w.idle_tick(4).is_none());
    assert_eq!(w.batch_len(), 2);

    let flush = w.idle_tick(5).expect("idle past the interval flushes");
    assert_eq!(flush.trigger, FlushTrigger::Time);
    assert_eq!(flush.rows.len(), 2);
    assert_eq!(flush.rows[0].timestamp, 10);
    assert_eq!(flush.rows[1].timestamp, 20);
    assert_eq!(w.batch_len(), 0);

    // nothing buffered: the timer alone never flushes
    assert!(w.idle_tick(100).is_none());
}

#[test]
fn test_shutdown_drains_batch() {
    let mut w = Worker::new(10, 5, 0);
    assert!(w.ingest(b"a 1.0 10", 0).is_none());
    assert!(w.ingest(b"b 2.0 20", 0).is_none());

    let flush = w.close().expect("closing with a non-empty batch drains it");
    assert_eq!(flush.trigger, FlushTrigger::Shutdown);
    assert_eq!(flush.rows.len(), 2);
    assert_eq!(flush.rows[0].timestamp, 10);
    assert_eq!(flush.rows[1].timestamp, 20);
    assert!(!w.is_running());
    assert_eq!(w.batch_len(), 0);
}

#[test]
fn test_shutdown_with_empty_batch() {
    let mut w = Worker::new(10, 5, 0);
    assert!(w.close().is_none());
    assert!(!w.is_running());
}

#[test]
fn test_counter_conservation() {
    let mut w = Worker::new(5, 5, 0);
    w.ingest(b"a 1.0 10", 0);
    w.ingest(b"not a metric", 0);
    w.ingest(b"b 2.0 20", 0);
    w.ingest(b"c nan-but-bad-ts x", 0);
    w.ingest(b"c 3.0 30", 0);

    let (received, processed, errors) = w.counts();
    assert_eq!(received, 5);
    assert_eq!(processed, 3);
    assert_eq!(errors, 2);

    // a failed sink write is one more error; processed is untouched
    w.record_flush_result(false);
    let (received, processed, errors) = w.counts();
    assert_eq!(received, 5);
    assert_eq!(processed, 3);
    assert_eq!(errors, 3);

    w.record_flush_result(true);
    let (_, _, errors) = w.counts();
    assert_eq!(errors, 3);
}

#[test]
fn test_batch_size_one_flushes_every_line() {
    let mut w = Worker::new(1, 5, 0);
    let f1 = w.ingest(b"a 1.0 10", 0).expect("one row fills the batch");
    assert_eq!(f1.trigger, FlushTrigger::Size);
    assert_eq!(f1.rows.len(), 1);
    let f2 = w.ingest(b"b 2.0 20", 0).expect("one row fills the batch");
    assert_eq!(f2.rows.len(), 1);
    assert_eq!(f2.rows[0].timestamp, 20);
    assert_eq!(w.batch_len(), 0);
}

#[test]
fn test_malformed_line_never_stops_worker() {
    let mut w = Worker::new(2, 5, 0);
    assert!(w.ingest(b"garbage", 0).is_none());
    assert!(w.ingest(b"a 1.0 10", 0).is_none());
    let flush = w.ingest(b"b 2.0 20", 0).expect("batch of two parsed rows");
    assert_eq!(flush.rows.len(), 2);
    assert!(w.is_running());
}

#[test]
fn test_obfuscated_rows_carry_hashed_paths() {
    let mut w = Worker::new(1, 5, 0);
    let flush = w.ingest(b"secret.name;k=secret.value 1.0 10", 0).unwrap();
    let path = String::from_utf8(flush.rows[0].path.clone()).unwrap();
    assert!(path.starts_with("obf_"));
    assert!(path.contains(";k=obf_"));
    assert!(!path.contains("secret.name"));
    assert!(!path.contains("secret.value"));
}
