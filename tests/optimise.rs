use range_io::byte_range::{resolve, ByteRange};
use range_io::optimise::{optimise, IoOperation, OptimisedOp, RequestError};

fn get(ranges: Vec<std::ops::Range<isize>>, metadata: Option<Vec<u32>>) -> IoOperation<u32> {
    IoOperation::GetRanges { filename: b"foo/bar".to_vec(), byte_ranges: ranges, metadata }
}

fn br(start: u64, end: u64) -> ByteRange {
    ByteRange { start, end }
}

#[test]
fn nearby_ranges_merge_into_one_transfer() {
    let ops = optimise(get(vec![0..100, 150..200], Some(vec![0, 1])), 1000, 100, 1000).unwrap();
    assert_eq!(ops.len(), 1);
    match &ops[0] {
        OptimisedOp::Merged {
            filename,
            write,
            merged_byte_range,
            merged_buffer,
            user_byte_ranges,
            user_metadata,
            user_indices,
        } => {
            assert_eq!(filename.as_slice(), b"foo/bar");
            assert!(!*write);
            assert_eq!(*merged_byte_range, br(0, 200));
            assert!(merged_buffer.is_none());
            assert_eq!(user_byte_ranges, &vec![br(0, 100), br(150, 200)]);
            assert_eq!(user_metadata, &Some(vec![0, 1]));
            assert_eq!(user_indices, &vec![0, 1]);
        }
        _ => panic!("expected a merged transfer"),
    }
}

#[test]
fn oversized_range_splits_into_three_pieces() {
    let max = 100usize;
    let ops = optimise(get(vec![0..(3 * max as isize)], None), 300, 0, max).unwrap();
    assert_eq!(ops.len(), 1);
    match &ops[0] {
        OptimisedOp::Split { split_byte_ranges, next_to_submit, n_completed, user_byte_range, .. } => {
            assert_eq!(split_byte_ranges, &vec![br(0, 100), br(100, 200), br(200, 300)]);
            assert_eq!(*next_to_submit, 0);
            assert_eq!(*n_completed, 0);
            assert_eq!(*user_byte_range, br(0, 300));
        }
        _ => panic!("expected a split transfer"),
    }
}

#[test]
fn split_keeps_short_last_piece() {
    let ops = optimise(get(vec![10..260], None), 1000, 0, 100).unwrap();
    match &ops[0] {
        OptimisedOp::Split { split_byte_ranges, .. } => {
            assert_eq!(split_byte_ranges, &vec![br(10, 110), br(110, 210), br(210, 260)]);
        }
        _ => panic!("expected a split transfer"),
    }
}

#[test]
fn small_lone_range_is_unchanged() {
    let ops = optimise(get(vec![10..20], Some(vec![7])), 100, 5, 100).unwrap();
    assert_eq!(ops.len(), 1);
    match &ops[0] {
        OptimisedOp::Unchanged { byte_range, buffer, metadata, user_index, .. } => {
            assert_eq!(*byte_range, br(10, 20));
            assert!(buffer.is_none());
            assert_eq!(*metadata, Some(7));
            assert_eq!(*user_index, 0);
        }
        _ => panic!("expected an unchanged transfer"),
    }
}

#[test]
fn negative_bounds_count_from_the_end() {
    assert_eq!(resolve(&(0..-1), 50), Some(br(0, 50)));
    assert_eq!(resolve(&(-10..-1), 50), Some(br(40, 50)));
    assert_eq!(resolve(&(5..-6), 50), Some(br(5, 45)));
    assert_eq!(resolve(&(-60..-1), 50), None);
    assert_eq!(resolve(&(10..10), 50), None);
    assert_eq!(resolve(&(40..51), 50), None);
}

#[test]
fn merge_window_too_wide_falls_back_to_single_transfers() {
    let ops = optimise(get(vec![0..60, 70..130], None), 1000, 100, 100).unwrap();
    assert_eq!(ops.len(), 2);
    match (&ops[0], &ops[1]) {
        (
            OptimisedOp::Unchanged { byte_range: a, user_index: ia, .. },
            OptimisedOp::Unchanged { byte_range: b, user_index: ib, .. },
        ) => {
            assert_eq!((*a, *ia), (br(0, 60), 0));
            assert_eq!((*b, *ib), (br(70, 130), 1));
        }
        _ => panic!("expected two unchanged transfers"),
    }
}

#[test]
fn zero_gap_merges_only_touching_ranges() {
    let ops = optimise(get(vec![30..40, 10..20, 0..10], None), 100, 0, 100).unwrap();
    assert_eq!(ops.len(), 2);
    match (&ops[0], &ops[1]) {
        (
            OptimisedOp::Merged { merged_byte_range, user_indices, .. },
            OptimisedOp::Unchanged { byte_range, user_index, .. },
        ) => {
            assert_eq!(*merged_byte_range, br(0, 20));
            assert_eq!(user_indices, &vec![2, 1]);
            assert_eq!(*byte_range, br(30, 40));
            assert_eq!(*user_index, 0);
        }
        _ => panic!("expected a merged then an unchanged transfer"),
    }
}

#[test]
fn overlapping_reads_merge_over_their_union() {
    let ops = optimise(get(vec![0..50, 20..40, 45..60], None), 100, 0, 100).unwrap();
    assert_eq!(ops.len(), 1);
    match &ops[0] {
        OptimisedOp::Merged { merged_byte_range, user_indices, .. } => {
            assert_eq!(*merged_byte_range, br(0, 60));
            assert_eq!(user_indices, &vec![0, 1, 2]);
        }
        _ => panic!("expected a merged transfer"),
    }
}

#[test]
fn adjacent_writes_merge_with_concatenated_buffers() {
    let op: IoOperation<u32> = IoOperation::PutRanges {
        filename: b"out".to_vec(),
        byte_ranges: vec![2..4, 0..2, 10..11],
        metadata: None,
        buffers: vec![vec![3, 4], vec![1, 2], vec![9]],
    };
    let ops = optimise(op, 20, 100, 100).unwrap();
    assert_eq!(ops.len(), 2);
    match (&ops[0], &ops[1]) {
        (
            OptimisedOp::Merged { write, merged_byte_range, merged_buffer, user_indices, .. },
            OptimisedOp::Unchanged { byte_range, buffer, .. },
        ) => {
            assert!(*write);
            assert_eq!(*merged_byte_range, br(0, 4));
            assert_eq!(merged_buffer, &Some(vec![1, 2, 3, 4]));
            assert_eq!(user_indices, &vec![1, 0]);
            assert_eq!(*byte_range, br(10, 11));
            assert_eq!(buffer, &Some(vec![9]));
        }
        _ => panic!("expected a merged then an unchanged write"),
    }
}

#[test]
fn refused_requests_report_why() {
    let bad_name: IoOperation<u32> =
        IoOperation::GetRanges { filename: b"a\0b".to_vec(), byte_ranges: vec![0..1], metadata: None };
    assert_eq!(optimise(bad_name, 10, 0, 10).err(), Some(RequestError::InvalidFilename));
    assert_eq!(optimise(get(vec![], None), 10, 0, 10).err(), Some(RequestError::NoRanges));
    assert_eq!(
        optimise(get(vec![0..1, 2..3], Some(vec![1])), 10, 0, 10).err(),
        Some(RequestError::MetadataLength)
    );
    assert_eq!(
        optimise(get(vec![0..1, 20..30, 40..50], None), 25, 0, 10).err(),
        Some(RequestError::Range { index: 1 })
    );
    let few_buffers: IoOperation<u32> = IoOperation::PutRanges {
        filename: b"out".to_vec(),
        byte_ranges: vec![0..1, 1..2],
        metadata: None,
        buffers: vec![vec![1]],
    };
    assert_eq!(optimise(few_buffers, 10, 0, 10).err(), Some(RequestError::BufferCount));
    let short_buffer: IoOperation<u32> = IoOperation::PutRanges {
        filename: b"out".to_vec(),
        byte_ranges: vec![0..1, 1..3],
        metadata: None,
        buffers: vec![vec![1], vec![2]],
    };
    assert_eq!(optimise(short_buffer, 10, 0, 10).err(), Some(RequestError::BufferLength { index: 1 }));
}

fn transfers(op: &OptimisedOp<u32>) -> Vec<ByteRange> {
    match op {
        OptimisedOp::Unchanged { byte_range, .. } => vec![*byte_range],
        OptimisedOp::Split { split_byte_ranges, .. } => split_byte_ranges.clone(),
        OptimisedOp::Merged { merged_byte_range, .. } => vec![*merged_byte_range],
    }
}

#[test]
fn transfers_cover_exactly_the_requested_bytes_once() {
    let ranges = vec![100..400, 10..30, 0..10, 50..60];
    let ops = optimise(get(ranges, None), 1000, 0, 100).unwrap();
    let mut moved = vec![0u32; 1000];
    for op in &ops {
        for r in transfers(op) {
            for x in r.start..r.end {
                moved[x as usize] += 1;
            }
        }
    }
    for x in 0..1000usize {
        let requested = x < 30 || (50..60).contains(&x) || (100..400).contains(&x);
        assert_eq!(moved[x], if requested { 1 } else { 0 }, "byte {x}");
    }
    let mut served: Vec<usize> = ops
        .iter()
        .flat_map(|op| match op {
            OptimisedOp::Unchanged { user_index, .. } => vec![*user_index],
            OptimisedOp::Split { user_index, .. } => vec![*user_index],
            OptimisedOp::Merged { user_indices, .. } => user_indices.clone(),
        })
        .collect();
    served.sort();
    assert_eq!(served, vec![0, 1, 2, 3]);
}

#[test]
fn merged_span_fits_and_holds_its_members() {
    let ops = optimise(get(vec![0..40, 45..70, 90..100], None), 1000, 20, 100).unwrap();
    assert_eq!(ops.len(), 1);
    match &ops[0] {
        OptimisedOp::Merged { merged_byte_range: m, user_byte_ranges, .. } => {
            assert!(m.end - m.start <= 100);
            assert_eq!(*m, br(0, 100));
            for r in user_byte_ranges {
                assert!(m.start <= r.start && r.end <= m.end);
            }
        }
        _ => panic!("expected a merged transfer"),
    }
}
