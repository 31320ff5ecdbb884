use live_midi_splitter::ordering::QueueHandler;

fn batch(tag: &str) -> Vec<(String, Vec<u8>)> {
    vec![(String::from(tag), vec![0x90, 60, 100])]
}

/// Batches arriving out of order are released strictly in timestamp order.
#[test]
fn releases_in_timestamp_order() {
    let mut q = QueueHandler::new();
    q.note_arrival(5);
    q.note_arrival(3);
    q.note_arrival(4);

    let r = q.handle(5, batch("five"));
    assert!(r.is_empty());

    let r = q.handle(3, batch("three"));
    assert_eq!(r.len(), 1);
    assert_eq!(r[0].0, 3);
    assert_eq!(r[0].1, batch("three"));

    let r = q.handle(4, batch("four"));
    assert_eq!(r.len(), 2);
    assert_eq!(r[0].0, 4);
    assert_eq!(r[0].1, batch("four"));
    assert_eq!(r[1].0, 5);
    assert_eq!(r[1].1, batch("five"));
}

#[test]
fn smallest_outstanding_released_at_once() {
    let mut q = QueueHandler::new();
    q.note_arrival(7);
    let r = q.handle(7, batch("seven"));
    assert_eq!(r.len(), 1);
    assert_eq!(r[0].0, 7);
}

#[test]
fn empty_batches_release_too() {
    // A message that produced no deliveries still retires its timestamp,
    // unblocking everything behind it.
    let mut q = QueueHandler::new();
    q.note_arrival(1);
    q.note_arrival(2);
    let r = q.handle(2, batch("two"));
    assert!(r.is_empty());
    let r = q.handle(1, Vec::new());
    assert_eq!(r.len(), 2);
    assert_eq!(r[0].0, 1);
    assert!(r[0].1.is_empty());
    assert_eq!(r[1].0, 2);
}

#[test]
fn equal_timestamps_release_one_by_one() {
    let mut q = QueueHandler::new();
    q.note_arrival(9);
    q.note_arrival(9);
    let r = q.handle(9, batch("a"));
    assert_eq!(r.len(), 1);
    let r = q.handle(9, batch("b"));
    assert_eq!(r.len(), 1);
}
