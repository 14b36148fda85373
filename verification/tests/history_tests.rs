use raminfo::tui::history::History;

#[test]
fn starts_empty() {
    let h = History::new(4);
    assert!(h.is_empty());
    assert_eq!(h.len(), 0);
    assert_eq!(h.capacity(), 4);
    assert_eq!(h.last(), None);
    assert_eq!(h.max(), 0);
}

#[test]
fn pushes_in_order() {
    let mut h = History::new(4);
    h.push(1);
    h.push(2);
    h.push(3);
    assert_eq!(h.len(), 3);
    assert_eq!(h.iter(), vec![1, 2, 3]);
    assert_eq!(h.last(), Some(3));
}

#[test]
fn evicts_oldest_when_full() {
    let mut h = History::new(3);
    for v in 1..=5 {
        h.push(v);
    }
    assert_eq!(h.len(), 3);
    assert_eq!(h.iter(), vec![3, 4, 5]);
    assert_eq!(h.last(), Some(5));
    assert_eq!(h.max(), 5);
}

#[test]
fn zero_capacity_discards_everything() {
    let mut h = History::new(0);
    h.push(42);
    h.push(43);
    assert!(h.is_empty());
    assert_eq!(h.last(), None);
    assert_eq!(h.tail(10).len(), 0);
}

#[test]
fn tail_returns_newest_samples_oldest_first() {
    let mut h = History::new(8);
    for v in 1..=6 {
        h.push(v);
    }
    assert_eq!(h.tail(3), vec![4, 5, 6]);
    // Asking for more than we hold returns everything.
    assert_eq!(h.tail(100), vec![1, 2, 3, 4, 5, 6]);
    assert_eq!(h.tail(0).len(), 0);
}

#[test]
fn max_tracks_current_window_only() {
    let mut h = History::new(2);
    h.push(99);
    h.push(1);
    h.push(2);
    // 99 has been evicted.
    assert_eq!(h.max(), 2);
}

#[test]
fn default_is_zero_capacity() {
    let mut h = History::default();
    h.push(7);
    assert!(h.is_empty());
}

#[test]
fn length_never_exceeds_capacity() {
    for cap in 0..6usize {
        let mut h = History::new(cap);
        for v in 0..20u64 {
            h.push(v);
            assert!(h.len() <= cap);
            if cap > 0 {
                assert_eq!(h.last(), Some(v));
            }
        }
        assert_eq!(h.capacity(), cap);
    }
}

#[test]
fn push_keeps_the_newest_samples_in_order() {
    let mut h = History::new(4);
    for v in [5u64, 9, 2, 7, 1, 8] {
        h.push(v);
    }
    assert_eq!(h.iter(), vec![2, 7, 1, 8]);
    assert_eq!(h.max(), 8);
    assert_eq!(h.tail(2), vec![1, 8]);
}
