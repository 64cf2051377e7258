use range_io::tracker::{Tracker, TrackerUsingBox};

#[test]
fn tracker_hands_out_indices_in_fifo_order() {
    let mut t: Tracker<u32> = Tracker::new(3);
    assert_eq!(t.get_next_index(), Some(0));
    assert_eq!(t.get_next_index(), Some(1));
    assert_eq!(t.get_next_index(), Some(2));
    assert_eq!(t.get_next_index(), None);
}

#[test]
fn tracker_capacity_two_third_allocate_is_none() {
    let mut t: Tracker<&str> = Tracker::new(2);
    let a = t.get_next_index();
    let b = t.get_next_index();
    assert_eq!(a, Some(0));
    assert_eq!(b, Some(1));
    assert_eq!(t.get_next_index(), None);
}

#[test]
fn tracker_put_as_mut_remove() {
    let mut t: Tracker<String> = Tracker::new(2);
    let i = t.get_next_index().unwrap();
    t.put(i, "hello".to_string());
    t.as_mut(i).unwrap().push_str(" world");
    assert_eq!(t.remove(i), Some("hello world".to_string()));
    assert!(t.as_mut(i).is_none());
}

#[test]
fn tracker_release_returns_index_to_service() {
    let mut t: Tracker<u8> = Tracker::new(2);
    let i = t.get_next_index().unwrap();
    assert_eq!(i, 0);
    assert_eq!(t.remove(i), None);
    assert_eq!(t.get_next_index(), Some(1));
    assert_eq!(t.get_next_index(), Some(0));
    assert_eq!(t.get_next_index(), None);
}

#[test]
fn tracker_double_release_is_refused() {
    let mut t: Tracker<u8> = Tracker::new(1);
    let i = t.get_next_index().unwrap();
    t.put(i, 7);
    assert_eq!(t.remove(i), Some(7));
    assert_eq!(t.remove(i), None);
    assert_eq!(t.get_next_index(), Some(0));
    assert_eq!(t.get_next_index(), None);
}

#[test]
fn tracker_reuses_released_index_after_others() {
    let mut t: Tracker<u8> = Tracker::new(3);
    let a = t.get_next_index().unwrap();
    t.put(a, 1);
    assert_eq!(t.remove(a), Some(1));
    assert_eq!(t.get_next_index(), Some(1));
    assert_eq!(t.get_next_index(), Some(2));
    assert_eq!(t.get_next_index(), Some(0));
}

#[test]
fn boxed_tracker_behaves_like_inline_tracker() {
    let mut t: TrackerUsingBox<Vec<u8>> = TrackerUsingBox::new(2);
    let a = t.get_next_index().unwrap();
    let b = t.get_next_index().unwrap();
    assert_eq!((a, b), (0, 1));
    assert_eq!(t.get_next_index(), None);
    t.put(b, vec![1, 2]);
    t.as_mut(b).unwrap().push(3);
    assert!(t.as_mut(a).is_none());
    assert_eq!(t.remove(b), Some(vec![1, 2, 3]));
    assert_eq!(t.remove(b), None);
    assert_eq!(t.get_next_index(), Some(1));
}
