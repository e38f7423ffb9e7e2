use hash_ring::consistent_hashing::{ConsistentHashing, ConsistentHashingError};
use hash_ring::hash_oracle::HashOracle;
use std::collections::hash_map::DefaultHasher;
use std::hash::{Hash, Hasher};

fn ring_of(virtual_nodes_count: u32, members: u32) -> ConsistentHashing<DefaultHasher> {
    let mut ring = ConsistentHashing::<DefaultHasher>::new(virtual_nodes_count);
    for i in 0..members {
        ring.add_node(&format!("node{}", i)).unwrap();
    }
    ring
}

#[test]
fn one_virtual_node_each_gives_five_entries() {
    let ring = ring_of(1, 5);
    assert_eq!(ring.get_current_state().len(), 5);
    assert_eq!(ring.ring().len(), 5);
    assert!(!ring.ring().is_empty());
}

#[test]
fn two_virtual_nodes_each_give_twelve_entries() {
    let mut ring = ConsistentHashing::<DefaultHasher>::new(2);
    for i in 0..6 {
        let (created, transactions) = ring.add_node(&format!("node{}", i)).unwrap();
        assert_eq!(created.len(), 2);
        assert!(transactions.len() <= 2);
        if i == 0 {
            assert!(transactions.is_empty());
        }
        for t in &transactions {
            assert_eq!(t.destination(), &format!("node{}", i));
            assert_ne!(t.source(), &format!("node{}", i));
        }
    }
    assert_eq!(ring.get_current_state().len(), 12);
    assert_eq!(ring.nodes().len(), 6);
}

#[test]
fn removing_a_node_takes_its_two_entries() {
    let mut ring = ring_of(2, 6);
    let transactions = ring.remove_node("node3").unwrap();
    assert_eq!(ring.get_current_state().len(), 10);
    assert!(!transactions.is_empty());
    assert!(transactions.len() <= 2);
    for t in &transactions {
        assert_eq!(t.source(), "node3");
        assert_ne!(t.destination(), "node3");
    }
    for (_, owner) in ring.get_current_state() {
        assert_ne!(owner, "node3");
    }
    assert!(!ring.contains_node("node3"));
}

#[test]
fn a_single_node_moves_nothing() {
    for count in [1u32, 2, 7, 64] {
        let mut ring = ConsistentHashing::<DefaultHasher>::new(count);
        let (created, transactions) = ring.add_node("only").unwrap();
        assert_eq!(created.len(), count as usize);
        assert!(transactions.is_empty());
        let mut faster = ConsistentHashing::<DefaultHasher>::new(count);
        assert!(faster.add_node_faster("only").unwrap().is_empty());
    }
}

#[test]
fn growing_from_two_to_three_adds_four_entries() {
    let mut ring = ring_of(2, 4);
    assert_eq!(ring.get_current_state().len(), 8);
    let transactions = ring.set_virtual_nodes_count(3).unwrap();
    assert_eq!(ring.get_current_state().len(), 12);
    assert!(transactions.len() <= 4);
    assert_eq!(ring.virtual_nodes_count(), 3);
    let back = ring.set_virtual_nodes_count(2).unwrap();
    assert_eq!(ring.get_current_state().len(), 8);
    assert!(back.len() <= 4);
}

#[test]
fn the_ring_is_kept_in_order() {
    let ring = ring_of(16, 10);
    let state = ring.get_current_state();
    assert_eq!(state.len(), 160);
    for pair in state.windows(2) {
        assert!(pair[0].0 < pair[1].0);
    }
}

#[test]
fn every_key_goes_to_a_member() {
    let ring = ring_of(3, 5);
    for k in 0..200 {
        let owner = ring.get_node(&format!("key{}", k)).unwrap();
        assert!(ring.nodes().contains(owner));
    }
    let empty = ConsistentHashing::<DefaultHasher>::new(3);
    assert_eq!(empty.get_node("key"), None);
}

#[test]
fn join_then_leave_restores_every_lookup() {
    let mut ring = ring_of(4, 5);
    let keys: Vec<String> = (0..300).map(|k| format!("key{}", k)).collect();
    let before: Vec<String> = keys.iter().map(|k| ring.get_node(k).unwrap().clone()).collect();
    ring.add_node("newcomer").unwrap();
    let moved = keys.iter().filter(|k| ring.get_node(k).unwrap() == "newcomer").count();
    assert!(moved > 0);
    ring.remove_node("newcomer").unwrap();
    let after: Vec<String> = keys.iter().map(|k| ring.get_node(k).unwrap().clone()).collect();
    assert_eq!(after, before);
}

#[test]
fn faster_joining_agrees_on_hashed_positions() {
    let mut plain = ConsistentHashing::<DefaultHasher>::new(8);
    let mut faster = ConsistentHashing::<DefaultHasher>::new(8);
    for i in 0..12 {
        let name = format!("node{}", i);
        let (_, expected) = plain.add_node(&name).unwrap();
        let transactions = faster.add_node_faster(&name).unwrap();
        assert_eq!(transactions.len(), expected.len());
        for (t, e) in transactions.iter().zip(expected.iter()) {
            assert_eq!(t.source(), e.source());
            assert_eq!(t.destination(), e.destination());
            assert_eq!(t.begining(), e.begining());
            assert_eq!(t.ending(), e.ending());
        }
        assert_eq!(faster.get_current_state(), plain.get_current_state());
    }
}

#[test]
fn positions_are_the_digests_of_the_labels() {
    let mut ring = ConsistentHashing::<DefaultHasher>::new(2);
    let (created, _) = ring.add_node("node0").unwrap();
    assert_eq!(created[0].0, "node0-0");
    assert_eq!(created[1].0, "node0-1");
    for (label, position) in &created {
        let mut hasher = DefaultHasher::default();
        label.hash(&mut hasher);
        assert_eq!(*position, hasher.finish());
        assert_eq!(*position, <DefaultHasher as HashOracle>::hash(label));
        assert_eq!(ring.get_node_by_hash(*position), Some(&"node0".to_string()));
    }
}

#[test]
fn the_digest_of_a_key_is_that_of_the_text() {
    for key in ["", "a", "gay", "node3-1", "\u{e9}t\u{e9}"] {
        let mut hasher = DefaultHasher::new();
        key.to_string().hash(&mut hasher);
        assert_eq!(<DefaultHasher as HashOracle>::hash(key), hasher.finish());
    }
    assert_ne!(
        <DefaultHasher as HashOracle>::hash("a"),
        <DefaultHasher as HashOracle>::hash("b")
    );
}

#[test]
fn errors_name_their_kind() {
    let mut ring = ring_of(2, 2);
    match ring.add_node("node1") {
        Err(ConsistentHashingError::NodeAlreadyExists(message)) => assert!(!message.is_empty()),
        _ => panic!("a member joined twice"),
    }
    match ring.remove_node("node9") {
        Err(ConsistentHashingError::NodeDoesNotExist(message)) => assert!(!message.is_empty()),
        _ => panic!("a stranger left"),
    }
    match ring.set_virtual_nodes_count(0) {
        Err(ConsistentHashingError::ZeroVirtualNodes(message)) => assert!(!message.is_empty()),
        _ => panic!("no virtual nodes"),
    }
    match ring.set_virtual_nodes_count(2) {
        Err(ConsistentHashingError::UnchangedVirtualNodeCount(message)) => {
            assert!(!message.is_empty())
        }
        _ => panic!("nothing to change"),
    }
}
