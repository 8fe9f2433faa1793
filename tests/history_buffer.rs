use hackrf_spectrum_analyzer::history::HistoryBuffer;

#[test]
fn five_pushes_into_three_slots() {
    let mut h = HistoryBuffer::new(3);
    for i in 1..=5 {
        h.push_front(i);
    }
    assert_eq!(h.len(), 3);
    assert_eq!((*h.get(0), *h.get(1), *h.get(2)), (5, 4, 3));
}

#[test]
fn overflowing_keeps_most_recent() {
    for cap in 1..6usize {
        for k in 1..4usize {
            let mut h = HistoryBuffer::new(cap);
            for i in 0..cap + k {
                h.push_front(i);
            }
            assert_eq!(h.len(), cap);
            for j in 0..cap {
                assert_eq!(*h.get(j), cap + k - 1 - j);
            }
        }
    }
}

#[test]
fn clear_empties() {
    let mut h = HistoryBuffer::new(2);
    h.push_front("a");
    assert!(!h.is_empty());
    h.clear();
    assert!(h.is_empty());
    assert_eq!(h.capacity(), 2);
}

#[test]
fn zero_capacity_holds_nothing() {
    let mut h = HistoryBuffer::new(0);
    h.push_front(1);
    assert_eq!(h.len(), 0);
}
