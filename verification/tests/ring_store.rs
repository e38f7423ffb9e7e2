use hash_ring::ring::Ring;

fn sample() -> Ring {
    let mut ring = Ring::new();
    ring.insert(40, "d".to_string());
    ring.insert(10, "a".to_string());
    ring.insert(u64::MAX, "z".to_string());
    ring.insert(0, "o".to_string());
    ring
}

fn listed(ring: &Ring) -> Vec<(u64, String)> {
    (0..ring.len()).map(|i| (ring.entry(i).0, ring.entry(i).1.clone())).collect()
}

#[test]
fn entries_are_kept_by_position() {
    let ring = sample();
    assert_eq!(
        listed(&ring),
        vec![
            (0, "o".to_string()),
            (10, "a".to_string()),
            (40, "d".to_string()),
            (u64::MAX, "z".to_string())
        ]
    );
    assert_eq!(ring.len(), 4);
}

#[test]
fn a_stored_position_changes_its_owner() {
    let mut ring = sample();
    ring.insert(10, "b".to_string());
    assert_eq!(ring.len(), 4);
    assert_eq!(ring.entry(1), (10, &"b".to_string()));
}

#[test]
fn removing_takes_one_position() {
    let mut ring = sample();
    ring.remove(10);
    assert_eq!(
        listed(&ring),
        vec![(0, "o".to_string()), (40, "d".to_string()), (u64::MAX, "z".to_string())]
    );
    ring.remove(11);
    assert_eq!(ring.len(), 3);
    ring.remove(0);
    ring.remove(u64::MAX);
    ring.remove(40);
    assert!(ring.is_empty());
    ring.remove(40);
    assert!(ring.is_empty());
}

#[test]
fn the_successor_is_strictly_after_and_wraps() {
    let ring = sample();
    assert_eq!(ring.successor(0).unwrap().0, 10);
    assert_eq!(ring.successor(9).unwrap().0, 10);
    assert_eq!(ring.successor(10).unwrap().0, 40);
    assert_eq!(ring.successor(40).unwrap().0, u64::MAX);
    assert_eq!(ring.successor(u64::MAX - 1).unwrap().0, u64::MAX);
    assert_eq!(ring.successor(u64::MAX), Some((0, &"o".to_string())));
    assert_eq!(ring.successor_index(u64::MAX), 0);
    assert_eq!(ring.successor_index(10), 2);
}

#[test]
fn the_predecessor_is_strictly_before_and_wraps() {
    let ring = sample();
    assert_eq!(ring.predecessor(0), Some((u64::MAX, &"z".to_string())));
    assert_eq!(ring.predecessor(1).unwrap().0, 0);
    assert_eq!(ring.predecessor(10).unwrap().0, 0);
    assert_eq!(ring.predecessor(11).unwrap().0, 10);
    assert_eq!(ring.predecessor(u64::MAX).unwrap().0, 40);
    assert_eq!(ring.predecessor_index(0), 3);
    assert_eq!(ring.predecessor_index(40), 1);
}

#[test]
fn the_owner_of_a_digest_is_at_or_after_it() {
    let ring = sample();
    assert_eq!(ring.successor_or_equal(0).unwrap().0, 0);
    assert_eq!(ring.successor_or_equal(1).unwrap().0, 10);
    assert_eq!(ring.successor_or_equal(10).unwrap().0, 10);
    assert_eq!(ring.successor_or_equal(41).unwrap().0, u64::MAX);
    assert_eq!(ring.successor_or_equal(u64::MAX).unwrap().0, u64::MAX);
    assert_eq!(ring.successor_or_equal_index(41), 3);
    let mut low = Ring::new();
    low.insert(5, "e".to_string());
    low.insert(7, "g".to_string());
    assert_eq!(low.successor_or_equal(8), Some((5, &"e".to_string())));
    assert_eq!(low.first_at_least(6), 1);
    assert_eq!(low.first_at_least(8), 2);
    assert_eq!(low.first_above(7), 2);
    assert_eq!(low.first_above(u64::MAX), 2);
    assert_eq!(low.first_above(4), 0);
}

#[test]
fn an_empty_ring_has_no_neighbours() {
    let ring = Ring::new();
    assert!(ring.is_empty());
    assert_eq!(ring.len(), 0);
    assert_eq!(ring.successor(3), None);
    assert_eq!(ring.predecessor(3), None);
    assert_eq!(ring.successor_or_equal(3), None);
}

#[test]
fn a_single_entry_is_its_own_neighbour() {
    let mut ring = Ring::new();
    ring.insert(9, "n".to_string());
    assert_eq!(ring.successor(9), Some((9, &"n".to_string())));
    assert_eq!(ring.predecessor(9), Some((9, &"n".to_string())));
    assert_eq!(ring.successor(100), Some((9, &"n".to_string())));
    assert_eq!(ring.predecessor(1), Some((9, &"n".to_string())));
}
