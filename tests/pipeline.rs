use range_io::byte_range::ByteRange;
use range_io::operation::{Delivery, TransferFailure};
use range_io::pipeline::{place, refill, Admission, PendingQueue, RequestProgress};
use range_io::tracker::Tracker;
use std::sync::Arc;

#[test]
fn full_tracker_queues_then_rejects() {
    let mut t: Tracker<&str> = Tracker::new(1);
    let mut q: PendingQueue<&str> = PendingQueue::new(1);
    assert!(matches!(place(&mut t, &mut q, "a"), Admission::Placed(0)));
    assert!(matches!(place(&mut t, &mut q, "b"), Admission::Queued));
    assert!(matches!(place(&mut t, &mut q, "c"), Admission::Rejected("c")));
    assert_eq!(q.len(), 1);
    assert_eq!(refill(&mut t, &mut q), None);
    assert_eq!(t.remove(0), Some("a"));
    assert_eq!(refill(&mut t, &mut q), Some(0));
    assert_eq!(q.len(), 0);
    assert_eq!(t.remove(0), Some("b"));
    assert_eq!(refill(&mut t, &mut q), None);
}

#[test]
fn pending_queue_is_first_in_first_out() {
    let mut q: PendingQueue<u8> = PendingQueue::new(3);
    assert_eq!(q.push(1), Ok(()));
    assert_eq!(q.push(2), Ok(()));
    assert_eq!(q.push(3), Ok(()));
    assert_eq!(q.push(4), Err(4));
    assert_eq!(q.pop(), Some(1));
    assert_eq!(q.pop(), Some(2));
    assert_eq!(q.pop(), Some(3));
    assert_eq!(q.pop(), None);
}

#[test]
fn request_finishes_when_last_transfer_is_recorded() {
    let mut p: RequestProgress<u8> = RequestProgress::new(2);
    let d = Delivery { user_index: 0, data: vec![1, 2], metadata: Some(4) };
    assert!(!p.record(Ok(vec![d])));
    let e = Delivery { user_index: 1, data: vec![3], metadata: Some(5) };
    assert!(p.record(Ok(vec![e])));
    let ds = p.finish().unwrap();
    assert_eq!(ds.len(), 2);
    assert_eq!(ds[1].data, vec![3]);
}

#[test]
fn request_reports_first_failure() {
    let name = Arc::new(b"f".to_vec());
    let mut p: RequestProgress<u8> = RequestProgress::new(3);
    let f1 = TransferFailure { filename: name.clone(), byte_range: ByteRange { start: 0, end: 4 } };
    let f2 = TransferFailure { filename: name, byte_range: ByteRange { start: 8, end: 9 } };
    assert!(!p.record(Err(f1)));
    assert!(!p.record(Ok(vec![])));
    assert!(p.record(Err(f2)));
    let err = p.finish().unwrap_err();
    assert_eq!(err.byte_range, ByteRange { start: 0, end: 4 });
}
