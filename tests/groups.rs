use range_io::groups::GroupSequencer;

#[test]
fn later_group_waits_for_every_completion_of_earlier_group() {
    let mut s: GroupSequencer<&str> = GroupSequencer::new(vec![3, 2]);
    let mut delivered: Vec<(usize, &str)> = Vec::new();
    delivered.extend(s.complete(1, "b0"));
    assert!(delivered.is_empty());
    delivered.extend(s.complete(0, "a0"));
    delivered.extend(s.complete(1, "b1"));
    delivered.extend(s.complete(0, "a1"));
    assert_eq!(delivered, vec![(0, "a0"), (0, "a1")]);
    delivered.extend(s.complete(0, "a2"));
    assert_eq!(delivered, vec![(0, "a0"), (0, "a1"), (0, "a2"), (1, "b0"), (1, "b1")]);
    let first_late = delivered.iter().position(|d| d.0 == 1).unwrap();
    assert!(delivered[..first_late].iter().filter(|d| d.0 == 0).count() == 3);
}

#[test]
fn empty_leading_group_is_skipped() {
    let mut s: GroupSequencer<u8> = GroupSequencer::new(vec![0, 1, 1]);
    assert_eq!(s.complete(2, 20), vec![]);
    assert_eq!(s.complete(1, 10), vec![(1, 10), (2, 20)]);
}
