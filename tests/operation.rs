use range_io::byte_range::ByteRange;
use range_io::operation::{StepOutcome, SubTransferResult};
use range_io::optimise::{optimise, IoOperation, OptimisedOp};

fn br(start: u64, end: u64) -> ByteRange {
    ByteRange { start, end }
}

fn plan_one(ranges: Vec<std::ops::Range<isize>>, metadata: Option<Vec<u32>>, gap: usize, max: usize) -> OptimisedOp<u32> {
    let op = IoOperation::GetRanges { filename: b"data.bin".to_vec(), byte_ranges: ranges, metadata };
    let mut ops = optimise(op, 10_000, gap, max).unwrap();
    assert_eq!(ops.len(), 1);
    ops.pop().unwrap()
}

fn bytes(start: u64, end: u64) -> Vec<u8> {
    (start..end).map(|i| (i % 251) as u8).collect()
}

#[test]
fn unchanged_read_delivers_its_bytes() {
    let mut op = plan_one(vec![10..20], Some(vec![5]), 0, 100);
    assert_eq!(op.initial_submissions(4), vec![(0, br(10, 20))]);
    match op.advance(SubTransferResult::Completed { index: 0, data: bytes(10, 20) }) {
        StepOutcome::Complete(Ok(ds)) => {
            assert_eq!(ds.len(), 1);
            assert_eq!(ds[0].user_index, 0);
            assert_eq!(ds[0].data, bytes(10, 20));
            assert_eq!(ds[0].metadata, Some(5));
        }
        _ => panic!("expected a delivery"),
    }
}

#[test]
fn short_read_is_a_transfer_failure() {
    let mut op = plan_one(vec![10..20], None, 0, 100);
    match op.advance(SubTransferResult::Completed { index: 0, data: bytes(10, 15) }) {
        StepOutcome::Complete(Err(f)) => {
            assert_eq!(f.filename.as_slice(), b"data.bin");
            assert_eq!(f.byte_range, br(10, 20));
        }
        _ => panic!("expected a failure"),
    }
}

#[test]
fn split_read_submits_piece_by_piece_and_assembles_in_order() {
    let mut op = plan_one(vec![0..300], Some(vec![9]), 0, 100);
    assert_eq!(op.initial_submissions(1), vec![(0, br(0, 100))]);
    match op.advance(SubTransferResult::Completed { index: 0, data: bytes(0, 100) }) {
        StepOutcome::NeedsMoreSubmissions(v) => assert_eq!(v, vec![(1, br(100, 200))]),
        _ => panic!("expected the next piece"),
    }
    match op.advance(SubTransferResult::Completed { index: 1, data: bytes(100, 200) }) {
        StepOutcome::NeedsMoreSubmissions(v) => assert_eq!(v, vec![(2, br(200, 300))]),
        _ => panic!("expected the next piece"),
    }
    match op.advance(SubTransferResult::Completed { index: 2, data: bytes(200, 300) }) {
        StepOutcome::Complete(Ok(ds)) => {
            assert_eq!(ds.len(), 1);
            assert_eq!(ds[0].data, bytes(0, 300));
            assert_eq!(ds[0].metadata, Some(9));
        }
        _ => panic!("expected a delivery"),
    }
}

#[test]
fn split_read_out_of_order_pieces_land_at_their_offsets() {
    let mut op = plan_one(vec![0..250], None, 0, 100);
    assert_eq!(op.initial_submissions(3), vec![(0, br(0, 100)), (1, br(100, 200)), (2, br(200, 250))]);
    assert!(matches!(
        op.advance(SubTransferResult::Completed { index: 2, data: bytes(200, 250) }),
        StepOutcome::AwaitingMore
    ));
    assert!(matches!(
        op.advance(SubTransferResult::Completed { index: 0, data: bytes(0, 100) }),
        StepOutcome::AwaitingMore
    ));
    match op.advance(SubTransferResult::Completed { index: 1, data: bytes(100, 200) }) {
        StepOutcome::Complete(Ok(ds)) => assert_eq!(ds[0].data, bytes(0, 250)),
        _ => panic!("expected a delivery"),
    }
}

#[test]
fn split_failure_waits_for_pieces_in_flight_then_reports_first_failure() {
    let mut op = plan_one(vec![0..400], None, 0, 100);
    assert_eq!(op.initial_submissions(3).len(), 3);
    assert!(matches!(op.advance(SubTransferResult::Failed { index: 1 }), StepOutcome::AwaitingMore));
    assert!(matches!(
        op.advance(SubTransferResult::Completed { index: 0, data: bytes(0, 100) }),
        StepOutcome::AwaitingMore
    ));
    match op.advance(SubTransferResult::Failed { index: 2 }) {
        StepOutcome::Complete(Err(f)) => assert_eq!(f.byte_range, br(100, 200)),
        _ => panic!("expected a failure"),
    }
}

#[test]
fn merged_read_hands_each_user_range_its_slice() {
    let mut op = plan_one(vec![150..200, 0..100], Some(vec![1, 0]), 100, 1000);
    assert_eq!(op.initial_submissions(8), vec![(0, br(0, 200))]);
    match op.advance(SubTransferResult::Completed { index: 0, data: bytes(0, 200) }) {
        StepOutcome::Complete(Ok(ds)) => {
            assert_eq!(ds.len(), 2);
            assert_eq!((ds[0].user_index, ds[0].metadata), (1, Some(0)));
            assert_eq!(ds[0].data, bytes(0, 100));
            assert_eq!((ds[1].user_index, ds[1].metadata), (0, Some(1)));
            assert_eq!(ds[1].data, bytes(150, 200));
        }
        _ => panic!("expected deliveries"),
    }
}

#[test]
fn merged_read_failure_names_the_merged_range() {
    let mut op = plan_one(vec![0..10, 20..30], None, 100, 1000);
    match op.advance(SubTransferResult::Failed { index: 0 }) {
        StepOutcome::Complete(Err(f)) => assert_eq!(f.byte_range, br(0, 30)),
        _ => panic!("expected a failure"),
    }
}
