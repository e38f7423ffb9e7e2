use hash_ring::consistent_hashing::{ConsistentHashing, ConsistentHashingError};
use hash_ring::hash_oracle::HashOracle;
use hash_ring::transaction::Transaction;

fn place(key: &str) -> (u64, u64) {
    let letter = (key.as_bytes()[0] - b'a' + 1) as u64;
    let index: u64 = key[2..].parse().unwrap();
    (letter, index)
}

/// Puts the label `<letter>-<index>` at `10 * letter + 100 * index`: the
/// virtual nodes of different nodes alternate.
struct Interleaved;

impl HashOracle for Interleaved {
    fn accepts(_: vstd::seq::Seq<char>) -> bool {
        unreachable!()
    }

    fn digest(_: vstd::seq::Seq<char>) -> u64 {
        unreachable!()
    }

    fn hash(key: &str) -> u64 {
        let (letter, index) = place(key);
        10 * letter + 100 * index
    }
}

/// Puts the label `<letter>-<index>` at `100 * letter + index`: the virtual
/// nodes of one node stand side by side.
struct Blocked;

impl HashOracle for Blocked {
    fn accepts(_: vstd::seq::Seq<char>) -> bool {
        unreachable!()
    }

    fn digest(_: vstd::seq::Seq<char>) -> u64 {
        unreachable!()
    }

    fn hash(key: &str) -> u64 {
        let (letter, index) = place(key);
        100 * letter + index
    }
}

/// Puts every label at `100 * index`, whatever the node.
struct Colliding;

impl HashOracle for Colliding {
    fn accepts(_: vstd::seq::Seq<char>) -> bool {
        unreachable!()
    }

    fn digest(_: vstd::seq::Seq<char>) -> u64 {
        unreachable!()
    }

    fn hash(key: &str) -> u64 {
        let (_, index) = place(key);
        100 * index
    }
}

fn fields(transactions: &Vec<Transaction>) -> Vec<(String, String, u64, u64)> {
    transactions
        .iter()
        .map(|t| (t.source().clone(), t.destination().clone(), t.begining(), t.ending()))
        .collect()
}

fn transfer(source: &str, destination: &str, begining: u64, ending: u64) -> (String, String, u64, u64) {
    (source.to_string(), destination.to_string(), begining, ending)
}

fn entries(list: &[(u64, &str)]) -> Vec<(u64, String)> {
    list.iter().map(|(p, n)| (*p, n.to_string())).collect()
}

#[test]
fn first_member_moves_nothing() {
    let mut ring = ConsistentHashing::<Interleaved>::new(3);
    let (created, transactions) = ring.add_node("a").unwrap();
    assert_eq!(
        created,
        vec![("a-0".to_string(), 10), ("a-1".to_string(), 110), ("a-2".to_string(), 210)]
    );
    assert!(transactions.is_empty());
    assert_eq!(ring.get_current_state(), entries(&[(10, "a"), (110, "a"), (210, "a")]));
    assert_eq!(ring.nodes(), &vec!["a".to_string()]);
}

#[test]
fn joining_between_others_takes_from_the_next_owner() {
    let mut ring = ConsistentHashing::<Interleaved>::new(2);
    ring.add_node("a").unwrap();
    let (created, transactions) = ring.add_node("b").unwrap();
    assert_eq!(created, vec![("b-0".to_string(), 20), ("b-1".to_string(), 120)]);
    assert_eq!(
        fields(&transactions),
        vec![transfer("a", "b", 10, 20), transfer("a", "b", 110, 120)]
    );
    let (_, transactions) = ring.add_node("c").unwrap();
    assert_eq!(
        fields(&transactions),
        vec![transfer("a", "c", 20, 30), transfer("a", "c", 120, 130)]
    );
    assert_eq!(
        ring.get_current_state(),
        entries(&[(10, "a"), (20, "b"), (30, "c"), (110, "a"), (120, "b"), (130, "c")])
    );
}

#[test]
fn a_block_of_positions_gives_one_transfer() {
    let mut ring = ConsistentHashing::<Blocked>::new(3);
    ring.add_node("a").unwrap();
    let (_, transactions) = ring.add_node("b").unwrap();
    assert_eq!(fields(&transactions), vec![transfer("a", "b", 102, 202)]);
    let (_, transactions) = ring.add_node("c").unwrap();
    assert_eq!(fields(&transactions), vec![transfer("a", "c", 202, 302)]);
}

#[test]
fn a_block_in_the_middle_takes_from_the_owner_behind_it() {
    let mut ring = ConsistentHashing::<Blocked>::new(2);
    ring.add_node("a").unwrap();
    ring.add_node("c").unwrap();
    let (_, transactions) = ring.add_node("b").unwrap();
    assert_eq!(fields(&transactions), vec![transfer("c", "b", 101, 201)]);
}

#[test]
fn faster_joining_gives_the_same_transfers() {
    let mut plain = ConsistentHashing::<Blocked>::new(3);
    let mut faster = ConsistentHashing::<Blocked>::new(3);
    for name in ["c", "a", "d", "b"] {
        let (_, expected) = plain.add_node(name).unwrap();
        let transactions = faster.add_node_faster(name).unwrap();
        assert_eq!(fields(&transactions), fields(&expected));
        assert_eq!(faster.get_current_state(), plain.get_current_state());
    }
    let mut plain = ConsistentHashing::<Interleaved>::new(4);
    let mut faster = ConsistentHashing::<Interleaved>::new(4);
    for name in ["b", "d", "a", "c"] {
        let (_, expected) = plain.add_node(name).unwrap();
        let transactions = faster.add_node_faster(name).unwrap();
        assert_eq!(fields(&transactions), fields(&expected));
        assert_eq!(faster.get_current_state(), plain.get_current_state());
    }
}

#[test]
fn faster_joining_in_a_block() {
    let mut ring = ConsistentHashing::<Blocked>::new(3);
    assert!(ring.add_node_faster("a").unwrap().is_empty());
    let transactions = ring.add_node_faster("b").unwrap();
    assert_eq!(fields(&transactions), vec![transfer("a", "b", 102, 202)]);
}

#[test]
fn faster_joining_fails_as_joining_does() {
    let mut ring = ConsistentHashing::<Blocked>::new(2);
    ring.add_node_faster("a").unwrap();
    assert!(matches!(
        ring.add_node_faster("a"),
        Err(ConsistentHashingError::NodeAlreadyExists(_))
    ));
    let mut none = ConsistentHashing::<Blocked>::new(0);
    assert!(matches!(
        none.add_node_faster("a"),
        Err(ConsistentHashingError::ZeroVirtualNodes(_))
    ));
    assert!(none.nodes().is_empty());
}

#[test]
fn leaving_hands_each_block_to_the_next_owner() {
    let mut ring = ConsistentHashing::<Blocked>::new(3);
    ring.add_node("a").unwrap();
    ring.add_node("b").unwrap();
    let transactions = ring.remove_node("a").unwrap();
    assert_eq!(fields(&transactions), vec![transfer("a", "b", 202, 102)]);
    assert_eq!(ring.get_current_state(), entries(&[(200, "b"), (201, "b"), (202, "b")]));
    assert_eq!(ring.nodes(), &vec!["b".to_string()]);
}

#[test]
fn leaving_between_others() {
    let mut ring = ConsistentHashing::<Interleaved>::new(2);
    ring.add_node("a").unwrap();
    ring.add_node("b").unwrap();
    ring.add_node("c").unwrap();
    let transactions = ring.remove_node("b").unwrap();
    assert_eq!(
        fields(&transactions),
        vec![transfer("b", "c", 10, 20), transfer("b", "c", 110, 120)]
    );
    assert_eq!(
        ring.get_current_state(),
        entries(&[(10, "a"), (30, "c"), (110, "a"), (130, "c")])
    );
    assert_eq!(ring.nodes(), &vec!["a".to_string(), "c".to_string()]);
}

#[test]
fn the_last_member_leaves_by_a_walk_once_round() {
    let mut ring = ConsistentHashing::<Blocked>::new(3);
    ring.add_node("a").unwrap();
    let transactions = ring.remove_node("a").unwrap();
    assert_eq!(fields(&transactions), vec![transfer("a", "a", 102, 100)]);
    assert!(ring.get_current_state().is_empty());
    assert!(ring.nodes().is_empty());
}

#[test]
fn growing_adds_virtual_nodes_by_member() {
    let mut ring = ConsistentHashing::<Interleaved>::new(1);
    ring.add_node("a").unwrap();
    ring.add_node("b").unwrap();
    let transactions = ring.set_virtual_nodes_count(2).unwrap();
    assert_eq!(fields(&transactions), vec![transfer("a", "b", 110, 120)]);
    assert_eq!(
        ring.get_current_state(),
        entries(&[(10, "a"), (20, "b"), (110, "a"), (120, "b")])
    );
    assert_eq!(ring.virtual_nodes_count(), 2);
}

#[test]
fn shrinking_takes_virtual_nodes_by_member() {
    let mut ring = ConsistentHashing::<Interleaved>::new(2);
    ring.add_node("a").unwrap();
    ring.add_node("b").unwrap();
    let transactions = ring.set_virtual_nodes_count(1).unwrap();
    assert_eq!(
        fields(&transactions),
        vec![transfer("a", "b", 20, 110), transfer("b", "a", 20, 120)]
    );
    assert_eq!(ring.get_current_state(), entries(&[(10, "a"), (20, "b")]));
    assert_eq!(ring.virtual_nodes_count(), 1);
}

#[test]
fn growing_inside_an_own_block_moves_nothing() {
    let mut ring = ConsistentHashing::<Blocked>::new(1);
    ring.add_node("a").unwrap();
    ring.add_node("b").unwrap();
    let transactions = ring.set_virtual_nodes_count(3).unwrap();
    assert_eq!(
        fields(&transactions),
        vec![
            transfer("b", "a", 100, 101),
            transfer("b", "a", 101, 102),
            transfer("a", "b", 200, 201),
            transfer("a", "b", 201, 202)
        ]
    );
    let transactions = ring.set_virtual_nodes_count(2).unwrap();
    assert_eq!(
        fields(&transactions),
        vec![transfer("a", "b", 101, 102), transfer("b", "a", 201, 202)]
    );
}

#[test]
fn resizing_is_refused_for_zero_and_for_the_same_count() {
    let mut ring = ConsistentHashing::<Interleaved>::new(2);
    ring.add_node("a").unwrap();
    ring.add_node("b").unwrap();
    let before = ring.get_current_state();
    assert!(matches!(
        ring.set_virtual_nodes_count(0),
        Err(ConsistentHashingError::ZeroVirtualNodes(_))
    ));
    assert!(matches!(
        ring.set_virtual_nodes_count(2),
        Err(ConsistentHashingError::UnchangedVirtualNodeCount(_))
    ));
    assert_eq!(ring.get_current_state(), before);
    assert_eq!(ring.virtual_nodes_count(), 2);
    assert_eq!(ring.nodes().len(), 2);
}

#[test]
fn joining_twice_is_refused_and_changes_nothing() {
    let mut ring = ConsistentHashing::<Interleaved>::new(2);
    ring.add_node("a").unwrap();
    ring.add_node("b").unwrap();
    let before = ring.get_current_state();
    assert!(matches!(ring.add_node("a"), Err(ConsistentHashingError::NodeAlreadyExists(_))));
    assert_eq!(ring.get_current_state(), before);
    assert_eq!(ring.nodes(), &vec!["a".to_string(), "b".to_string()]);
}

#[test]
fn leaving_without_being_a_member_is_refused_and_changes_nothing() {
    let mut ring = ConsistentHashing::<Interleaved>::new(2);
    ring.add_node("a").unwrap();
    let before = ring.get_current_state();
    assert!(matches!(ring.remove_node("b"), Err(ConsistentHashingError::NodeDoesNotExist(_))));
    assert_eq!(ring.get_current_state(), before);
    assert_eq!(ring.nodes(), &vec!["a".to_string()]);
}

#[test]
fn joining_a_ring_without_virtual_nodes_is_refused() {
    let mut ring = ConsistentHashing::<Interleaved>::new(0);
    assert!(matches!(ring.add_node("a"), Err(ConsistentHashingError::ZeroVirtualNodes(_))));
    assert!(ring.nodes().is_empty());
    assert!(ring.get_current_state().is_empty());
    assert!(ring.set_virtual_nodes_count(2).unwrap().is_empty());
    ring.add_node("a").unwrap();
    assert_eq!(ring.get_current_state(), entries(&[(10, "a"), (110, "a")]));
}

#[test]
fn join_then_leave_restores_the_ring() {
    let mut ring = ConsistentHashing::<Interleaved>::new(3);
    ring.add_node("a").unwrap();
    ring.add_node("c").unwrap();
    let before = ring.get_current_state();
    ring.add_node("b").unwrap();
    assert_ne!(ring.get_current_state(), before);
    ring.remove_node("b").unwrap();
    assert_eq!(ring.get_current_state(), before);
    assert_eq!(ring.nodes(), &vec!["a".to_string(), "c".to_string()]);
}

#[test]
fn the_last_write_wins_where_labels_meet() {
    let mut ring = ConsistentHashing::<Colliding>::new(2);
    ring.add_node("a").unwrap();
    assert_eq!(ring.get_current_state(), entries(&[(0, "a"), (100, "a")]));
    let (_, transactions) = ring.add_node("b").unwrap();
    assert_eq!(ring.get_current_state(), entries(&[(0, "b"), (100, "b")]));
    assert_eq!(fields(&transactions), vec![transfer("b", "b", 100, 0)]);
    let transactions = ring.remove_node("a").unwrap();
    assert_eq!(
        fields(&transactions),
        vec![transfer("a", "b", 100, 0), transfer("a", "b", 0, 100)]
    );
    assert!(ring.get_current_state().is_empty());
    assert_eq!(ring.nodes(), &vec!["b".to_string()]);
    assert_eq!(ring.get_node_by_hash(5), None);
    assert!(ring.remove_node("b").unwrap().is_empty());
    assert!(ring.nodes().is_empty());
}

#[test]
fn lookup_goes_to_the_next_position_and_wraps() {
    let mut ring = ConsistentHashing::<Interleaved>::new(1);
    assert_eq!(ring.get_node_by_hash(0), None);
    ring.add_node("a").unwrap();
    ring.add_node("b").unwrap();
    ring.add_node("c").unwrap();
    assert_eq!(ring.get_node_by_hash(0), Some(&"a".to_string()));
    assert_eq!(ring.get_node_by_hash(10), Some(&"a".to_string()));
    assert_eq!(ring.get_node_by_hash(11), Some(&"b".to_string()));
    assert_eq!(ring.get_node_by_hash(20), Some(&"b".to_string()));
    assert_eq!(ring.get_node_by_hash(30), Some(&"c".to_string()));
    assert_eq!(ring.get_node_by_hash(31), Some(&"a".to_string()));
    assert_eq!(ring.get_node_by_hash(u64::MAX), Some(&"a".to_string()));
}

#[test]
fn neighbours_on_the_circle() {
    let mut ring = ConsistentHashing::<Interleaved>::new(1);
    assert_eq!(ring.get_previous_node_by_hash(7), None);
    assert_eq!(ring.get_next_node_by_hash(7), None);
    ring.add_node("a").unwrap();
    ring.add_node("b").unwrap();
    ring.add_node("c").unwrap();
    let a = "a".to_string();
    let b = "b".to_string();
    let c = "c".to_string();
    assert_eq!(ring.get_previous_node_by_hash(20), Some((10, &a)));
    assert_eq!(ring.get_previous_node_by_hash(10), Some((30, &c)));
    assert_eq!(ring.get_previous_node_by_hash(0), Some((30, &c)));
    assert_eq!(ring.get_previous_node_by_hash(u64::MAX), Some((30, &c)));
    assert_eq!(ring.get_next_node_by_hash(20), Some((30, &c)));
    assert_eq!(ring.get_next_node_by_hash(30), Some((10, &a)));
    assert_eq!(ring.get_next_node_by_hash(15), Some((20, &b)));
    assert_eq!(ring.get_next_node_by_hash(u64::MAX), Some((10, &a)));
    assert_eq!(ring.get_previous_node("b-0"), Some((10, &a)));
    assert_eq!(ring.get_next_node("b-0"), Some((30, &c)));
    assert_eq!(ring.get_next_node_by_hashv2(30), 0);
    assert_eq!(ring.get_previous_node_by_hashv2(10), 2);
    assert_eq!(ring.hash("c-4"), 430);
    assert_eq!(ring.get_virtual_node_form("node", 12), "node-12");
}

#[test]
fn a_ring_made_with_nodes() {
    let names = vec!["b".to_string(), "a".to_string()];
    let ring = ConsistentHashing::<Interleaved>::new_with_nodes(2, names).unwrap();
    assert_eq!(
        ring.get_current_state(),
        entries(&[(10, "a"), (20, "b"), (110, "a"), (120, "b")])
    );
    assert_eq!(ring.nodes(), &vec!["b".to_string(), "a".to_string()]);
    assert!(ring.contains_node("a"));
    assert!(!ring.contains_node("c"));

    let twice = vec!["a".to_string(), "b".to_string(), "a".to_string()];
    assert!(matches!(
        ConsistentHashing::<Interleaved>::new_with_nodes(2, twice),
        Err(ConsistentHashingError::NodeAlreadyExists(_))
    ));
    assert!(matches!(
        ConsistentHashing::<Interleaved>::new_with_nodes(0, vec!["a".to_string()]),
        Err(ConsistentHashingError::ZeroVirtualNodes(_))
    ));
    let empty = ConsistentHashing::<Interleaved>::new_with_nodes(0, Vec::new()).unwrap();
    assert!(empty.nodes().is_empty());
}

fn owners<T: HashOracle>(ring: &ConsistentHashing<T>, upto: u64) -> Vec<Option<String>> {
    let mut all: Vec<Option<String>> =
        (0..upto).map(|d| ring.get_node_by_hash(d).cloned()).collect();
    all.push(ring.get_node_by_hash(u64::MAX).cloned());
    all
}

fn digests(upto: u64) -> Vec<u64> {
    let mut all: Vec<u64> = (0..upto).collect();
    all.push(u64::MAX);
    all
}

/// Every digest that changed its owner lies in one range, whose source and
/// destination are the owners before and after; every other digest lies in
/// none.
fn transfers_tell_the_moves(
    before: &[Option<String>],
    after: &[Option<String>],
    transactions: &Vec<Transaction>,
    upto: u64,
) {
    for (i, d) in digests(upto).into_iter().enumerate() {
        let covering: Vec<&Transaction> = transactions.iter().filter(|t| t.covers(d)).collect();
        if before[i] == after[i] {
            assert!(covering.is_empty(), "digest {}", d);
        } else {
            assert_eq!(covering.len(), 1, "digest {}", d);
            assert_eq!(Some(covering[0].source()), before[i].as_ref(), "digest {}", d);
            assert_eq!(Some(covering[0].destination()), after[i].as_ref(), "digest {}", d);
        }
    }
}

#[test]
fn a_range_is_open_at_its_begining_and_closed_at_its_ending() {
    let plain = Transaction::new("a".to_string(), "b".to_string(), 10, 20);
    assert!(!plain.covers(10));
    assert!(plain.covers(11));
    assert!(plain.covers(20));
    assert!(!plain.covers(21));
    assert!(!plain.covers(0));
    let round = Transaction::new("a".to_string(), "b".to_string(), 20, 10);
    assert!(round.covers(21));
    assert!(round.covers(u64::MAX));
    assert!(round.covers(0));
    assert!(round.covers(10));
    assert!(!round.covers(11));
    assert!(!round.covers(20));
    let whole = Transaction::new("a".to_string(), "a".to_string(), 7, 7);
    assert!(whole.covers(7));
    assert!(whole.covers(8));
    assert!(whole.covers(0));
}

#[test]
fn the_transfers_of_joining_and_leaving_tell_the_moves() {
    let mut ring = ConsistentHashing::<Interleaved>::new(3);
    ring.add_node("b").unwrap();
    for name in ["d", "a", "c", "e"] {
        let before = owners(&ring, 400);
        let (_, transactions) = ring.add_node(name).unwrap();
        transfers_tell_the_moves(&before, &owners(&ring, 400), &transactions, 400);
    }
    for name in ["a", "e", "c", "b"] {
        let before = owners(&ring, 400);
        let transactions = ring.remove_node(name).unwrap();
        transfers_tell_the_moves(&before, &owners(&ring, 400), &transactions, 400);
    }
}

#[test]
fn the_transfers_of_blocks_tell_the_moves() {
    let mut ring = ConsistentHashing::<Blocked>::new(4);
    ring.add_node("c").unwrap();
    for name in ["a", "e", "b", "d"] {
        let before = owners(&ring, 700);
        let transactions = ring.add_node_faster(name).unwrap();
        transfers_tell_the_moves(&before, &owners(&ring, 700), &transactions, 700);
    }
    for name in ["c", "a", "d", "e"] {
        let before = owners(&ring, 700);
        let transactions = ring.remove_node(name).unwrap();
        transfers_tell_the_moves(&before, &owners(&ring, 700), &transactions, 700);
    }
}

#[test]
fn the_transfers_of_resizing_tell_the_moves_step_by_step() {
    let mut ring = ConsistentHashing::<Interleaved>::new(1);
    ring.add_node("a").unwrap();
    let before = owners(&ring, 400);
    let transactions = ring.set_virtual_nodes_count(2).unwrap();
    transfers_tell_the_moves(&before, &owners(&ring, 400), &transactions, 400);
    ring.add_node("b").unwrap();
    let mut single = ConsistentHashing::<Interleaved>::new(1);
    single.add_node("a").unwrap();
    single.add_node("b").unwrap();
    let before = owners(&single, 400);
    let transactions = single.set_virtual_nodes_count(2).unwrap();
    assert_eq!(transactions.len(), 1);
    assert_eq!(single.get_node_by_hash(115), Some(&"b".to_string()));
    assert_eq!(before[115], Some("a".to_string()));
    assert!(transactions[0].covers(115));
    assert!(!transactions[0].covers(105));
}
