use crate::hash_oracle::HashOracle;
use crate::label::virtual_label;
use crate::ring::{
    ordered, predecessor, successor, successor_or_equal, with_entry, without_entry, Entries,
};
use crate::transaction::TransactionView;
use vstd::prelude::*;

verus! {

/// The state of the placement engine as a mathematical value.
pub struct RingState {
    /// The ring, by ascending position.
    pub ring: Entries,
    /// The members, in the order in which they joined.
    pub nodes: Seq<Seq<char>>,
    /// How many virtual nodes each member has.
    pub virtual_nodes_count: u32,
}

/// The position of the `index`-th virtual node of `node`.
pub open spec fn label_position<H: HashOracle>(node: Seq<char>, index: u32) -> u64 {
    H::digest(virtual_label(node, index))
}

/// The oracle is defined on the labels `from..to` of `node`.
pub open spec fn labels_accepted<H: HashOracle>(node: Seq<char>, from: u32, to: u32) -> bool {
    forall|i: u32| from <= i < to ==> H::accepts(#[trigger] virtual_label(node, i))
}

/// `position` is the position of one of the first `count` virtual nodes of `node`.
pub open spec fn labelled<H: HashOracle>(node: Seq<char>, position: u64, count: u32) -> bool {
    exists|i: u32| i < count && #[trigger] label_position::<H>(node, i) == position
}

/// Every entry belongs to one of `nodes` and stands at the position of one of
/// its owner's first `count` virtual nodes.
pub open spec fn entries_owned<H: HashOracle>(
    ring: Entries,
    nodes: Seq<Seq<char>>,
    count: u32,
) -> bool {
    forall|j: int|
        0 <= j < ring.len() ==> nodes.contains((#[trigger] ring[j]).1) && labelled::<H>(
            ring[j].1,
            ring[j].0,
            count,
        )
}

/// What the placement engine keeps true of its state for an oracle `H`: the
/// ring is in order, no member is listed twice, every entry belongs to a
/// member and stands at the position of one of its virtual nodes, and the
/// oracle is defined on the labels of every member.
pub open spec fn valid<H: HashOracle>(state: RingState) -> bool {
    &&& ordered(state.ring)
    &&& state.nodes.no_duplicates()
    &&& entries_owned::<H>(state.ring, state.nodes, state.virtual_nodes_count)
    &&& forall|k: int|
        0 <= k < state.nodes.len() ==> labels_accepted::<H>(
            #[trigger] state.nodes[k],
            0,
            state.virtual_nodes_count,
        )
}

/// The ring after the first `count` virtual nodes of `node` were stored, by
/// ascending index.
pub open spec fn planted<H: HashOracle>(s: Entries, node: Seq<char>, count: nat) -> Entries
    decreases count,
{
    if count == 0 {
        s
    } else {
        with_entry(
            planted::<H>(s, node, (count - 1) as nat),
            label_position::<H>(node, (count - 1) as u32),
            node,
        )
    }
}

/// The ring after the positions of the first `count` virtual nodes of `node`
/// were taken out.
pub open spec fn uprooted<H: HashOracle>(s: Entries, node: Seq<char>, count: nat) -> Entries
    decreases count,
{
    if count == 0 {
        s
    } else {
        without_entry(
            uprooted::<H>(s, node, (count - 1) as nat),
            label_position::<H>(node, (count - 1) as u32),
        )
    }
}

/// Where a walk against the order ends that starts at the entry `at` and
/// goes on to the entry before as long as `node` owns the entry it stands
/// on, for `fuel` steps at most.
pub open spec fn walk_back(s: Entries, node: Seq<char>, at: int, fuel: nat) -> int
    decreases fuel,
{
    if fuel == 0 || s[at].1 != node {
        at
    } else {
        walk_back(s, node, predecessor(s, s[at].0), (fuel - 1) as nat)
    }
}

/// The positions that the walk of `walk_back` leaves behind.
pub open spec fn passed_back(s: Entries, node: Seq<char>, at: int, fuel: nat) -> Set<u64>
    decreases fuel,
{
    if fuel == 0 || s[at].1 != node {
        Set::empty()
    } else {
        passed_back(s, node, predecessor(s, s[at].0), (fuel - 1) as nat).insert(s[at].0)
    }
}

/// Where a walk with the order ends that starts at the entry `at` and goes
/// on to the entry after as long as `node` owns the entry it stands on, for
/// `fuel` steps at most.
pub open spec fn walk_forward(s: Entries, node: Seq<char>, at: int, fuel: nat) -> int
    decreases fuel,
{
    if fuel == 0 || s[at].1 != node {
        at
    } else {
        walk_forward(s, node, successor(s, s[at].0), (fuel - 1) as nat)
    }
}

/// The positions that the walk of `walk_forward` leaves behind.
pub open spec fn passed_forward(s: Entries, node: Seq<char>, at: int, fuel: nat) -> Set<u64>
    decreases fuel,
{
    if fuel == 0 || s[at].1 != node {
        Set::empty()
    } else {
        passed_forward(s, node, successor(s, s[at].0), (fuel - 1) as nat).insert(s[at].0)
    }
}

/// The entry before the block of `node` around `position`: the first entry
/// against the order that another node owns. A walk once round the ring that
/// meets no other node ends where it began.
pub open spec fn block_predecessor(s: Entries, node: Seq<char>, position: u64) -> int {
    walk_back(s, node, predecessor(s, position), s.len())
}

/// The entry after the block of `node` around `position`: the first entry
/// with the order that another node owns.
pub open spec fn block_successor(s: Entries, node: Seq<char>, position: u64) -> int {
    walk_forward(s, node, successor(s, position), s.len())
}

/// The positions of the block of `node` around `position`.
pub open spec fn block_positions(s: Entries, node: Seq<char>, position: u64) -> Set<u64> {
    passed_back(s, node, predecessor(s, position), s.len()).union(
        passed_forward(s, node, successor(s, position), s.len()),
    ).insert(position)
}

/// The change of ownership around `position`. The range begins after the
/// entry before the block and ends with the entry just before the one after
/// the block. When `node` joins it takes the range from the owner of the
/// entry after the block; when it leaves it hands the range to that owner.
pub open spec fn block_transfer(
    s: Entries,
    node: Seq<char>,
    position: u64,
    joining: bool,
) -> TransactionView {
    let before = block_predecessor(s, node, position);
    let after = block_successor(s, node, position);
    let boundary = predecessor(s, s[after].0);
    if joining {
        TransactionView {
            source: s[after].1,
            destination: node,
            begining: s[before].0,
            ending: s[boundary].0,
        }
    } else {
        TransactionView {
            source: node,
            destination: s[after].1,
            begining: s[before].0,
            ending: s[boundary].0,
        }
    }
}

/// The transfers for the first `count` virtual nodes of `node`, by ascending
/// index, with the positions seen on the way. A virtual node whose position
/// was seen before adds nothing.
pub open spec fn sweep<H: HashOracle>(
    s: Entries,
    node: Seq<char>,
    count: nat,
    joining: bool,
) -> (Seq<TransactionView>, Set<u64>)
    decreases count,
{
    if count == 0 {
        (Seq::empty(), Set::empty())
    } else {
        let (transfers, seen) = sweep::<H>(s, node, (count - 1) as nat, joining);
        let position = label_position::<H>(node, (count - 1) as u32);
        if seen.contains(position) {
            (transfers, seen)
        } else {
            (
                transfers.push(block_transfer(s, node, position, joining)),
                seen.union(block_positions(s, node, position)),
            )
        }
    }
}

/// The state after `node` has joined.
pub open spec fn joined<H: HashOracle>(state: RingState, node: Seq<char>) -> RingState {
    RingState {
        ring: planted::<H>(state.ring, node, state.virtual_nodes_count as nat),
        nodes: state.nodes.push(node),
        virtual_nodes_count: state.virtual_nodes_count,
    }
}

/// The transfers that the joining of `node` asks for: none for the first
/// member, else one for each block of its positions in the new ring.
pub open spec fn joining_transfers<H: HashOracle>(
    state: RingState,
    node: Seq<char>,
) -> Seq<TransactionView> {
    if state.nodes.len() == 0 {
        Seq::empty()
    } else {
        sweep::<H>(
            joined::<H>(state, node).ring,
            node,
            state.virtual_nodes_count as nat,
            true,
        ).0
    }
}

/// The state after the member `node` has left.
pub open spec fn left<H: HashOracle>(state: RingState, node: Seq<char>) -> RingState {
    RingState {
        ring: uprooted::<H>(state.ring, node, state.virtual_nodes_count as nat),
        nodes: state.nodes.remove(state.nodes.index_of(node)),
        virtual_nodes_count: state.virtual_nodes_count,
    }
}

/// The transfers that the leaving of `node` asks for, taken on the ring as it
/// is before the node's positions go: one for each block of its positions. A
/// ring without entries has nothing to hand over.
pub open spec fn leaving_transfers<H: HashOracle>(
    state: RingState,
    node: Seq<char>,
) -> Seq<TransactionView> {
    if state.ring.len() == 0 {
        Seq::empty()
    } else {
        sweep::<H>(state.ring, node, state.virtual_nodes_count as nat, false).0
    }
}

/// One more virtual node for the member `node`: its position is stored, and
/// where the entry after it belongs to another node, that node hands over
/// the range that ends at the new position.
pub open spec fn grow_step<H: HashOracle>(s: Entries, node: Seq<char>, index: u32) -> (
    Entries,
    Seq<TransactionView>,
) {
    let position = label_position::<H>(node, index);
    let ring = with_entry(s, position, node);
    let after = successor(ring, position);
    let before = predecessor(ring, position);
    if ring[after].1 != node {
        (
            ring,
            seq![
                TransactionView {
                    source: ring[after].1,
                    destination: node,
                    begining: ring[before].0,
                    ending: position,
                },
            ],
        )
    } else {
        (ring, Seq::empty())
    }
}

/// The virtual nodes `from..to` for the member `node`, by ascending index:
/// the ring after them and the transfers they ask for.
pub open spec fn grow_member<H: HashOracle>(s: Entries, node: Seq<char>, from: nat, to: nat) -> (
    Entries,
    Seq<TransactionView>,
)
    decreases to,
{
    if to <= from {
        (s, Seq::empty())
    } else {
        let (ring, transfers) = grow_member::<H>(s, node, from, (to - 1) as nat);
        let (grown, more) = grow_step::<H>(ring, node, (to - 1) as u32);
        (grown, transfers + more)
    }
}

/// The virtual nodes `from..to` for the first `members` of `nodes`, one
/// member after the other.
pub open spec fn grow<H: HashOracle>(
    s: Entries,
    nodes: Seq<Seq<char>>,
    members: nat,
    from: nat,
    to: nat,
) -> (Entries, Seq<TransactionView>)
    decreases members,
{
    if members == 0 {
        (s, Seq::empty())
    } else {
        let (ring, transfers) = grow::<H>(s, nodes, (members - 1) as nat, from, to);
        let (grown, more) = grow_member::<H>(ring, nodes[members - 1], from, to);
        (grown, transfers + more)
    }
}

/// One virtual node less for the member `node`: where the entry after its
/// position belongs to another node, that node takes over the range that
/// ends at the position; then the position goes. A ring without entries has
/// nothing to hand over.
pub open spec fn shrink_step<H: HashOracle>(s: Entries, node: Seq<char>, index: u32) -> (
    Entries,
    Seq<TransactionView>,
) {
    let position = label_position::<H>(node, index);
    let after = successor(s, position);
    let before = predecessor(s, position);
    if s.len() > 0 && s[after].1 != node {
        (
            without_entry(s, position),
            seq![
                TransactionView {
                    source: node,
                    destination: s[after].1,
                    begining: s[before].0,
                    ending: position,
                },
            ],
        )
    } else {
        (without_entry(s, position), Seq::empty())
    }
}

/// The virtual nodes `from..to` of the member `node` go, by descending
/// index: the ring after them and the transfers they ask for.
pub open spec fn shrink_member<H: HashOracle>(
    s: Entries,
    node: Seq<char>,
    from: nat,
    to: nat,
) -> (Entries, Seq<TransactionView>)
    decreases to - from,
{
    if to <= from {
        (s, Seq::empty())
    } else {
        let (ring, transfers) = shrink_member::<H>(s, node, from + 1, to);
        let (shrunk, more) = shrink_step::<H>(ring, node, from as u32);
        (shrunk, transfers + more)
    }
}

/// The virtual nodes `from..to` of the first `members` of `nodes` go, one
/// member after the other.
pub open spec fn shrink<H: HashOracle>(
    s: Entries,
    nodes: Seq<Seq<char>>,
    members: nat,
    from: nat,
    to: nat,
) -> (Entries, Seq<TransactionView>)
    decreases members,
{
    if members == 0 {
        (s, Seq::empty())
    } else {
        let (ring, transfers) = shrink::<H>(s, nodes, (members - 1) as nat, from, to);
        let (shrunk, more) = shrink_member::<H>(ring, nodes[members - 1], from, to);
        (shrunk, transfers + more)
    }
}

/// The ring and the transfers when every member goes from
/// `state.virtual_nodes_count` virtual nodes to `count`, member by member in
/// the order in which they joined.
pub open spec fn resize<H: HashOracle>(state: RingState, count: u32) -> (
    Entries,
    Seq<TransactionView>,
) {
    if count > state.virtual_nodes_count {
        grow::<H>(
            state.ring,
            state.nodes,
            state.nodes.len(),
            state.virtual_nodes_count as nat,
            count as nat,
        )
    } else {
        shrink::<H>(
            state.ring,
            state.nodes,
            state.nodes.len(),
            count as nat,
            state.virtual_nodes_count as nat,
        )
    }
}

/// The state after every member has `count` virtual nodes.
pub open spec fn resized<H: HashOracle>(state: RingState, count: u32) -> RingState {
    RingState {
        ring: resize::<H>(state, count).0,
        nodes: state.nodes,
        virtual_nodes_count: count,
    }
}

/// The oracle is defined on the labels that a change to `count` virtual
/// nodes adds.
pub open spec fn new_labels_accepted<H: HashOracle>(state: RingState, count: u32) -> bool {
    forall|k: int|
        0 <= k < state.nodes.len() ==> labels_accepted::<H>(
            #[trigger] state.nodes[k],
            state.virtual_nodes_count,
            count,
        )
}

/// The state of a ring without members.
pub open spec fn initial(virtual_nodes_count: u32) -> RingState {
    RingState {
        ring: Seq::<(u64, Seq<char>)>::empty(),
        nodes: Seq::<Seq<char>>::empty(),
        virtual_nodes_count,
    }
}

/// The state after the first `count` of `names` have joined, one after the
/// other.
pub open spec fn joined_all<H: HashOracle>(
    state: RingState,
    names: Seq<Seq<char>>,
    count: nat,
) -> RingState
    decreases count,
{
    if count == 0 {
        state
    } else {
        joined::<H>(joined_all::<H>(state, names, (count - 1) as nat), names[count - 1])
    }
}

/// The owner of a digest: the node at the first stored position that is not
/// less than the digest, or at the smallest stored position where there is
/// none. A ring without entries has no owners.
pub open spec fn lookup(ring: Entries, digest: u64) -> Option<Seq<char>> {
    if ring.len() == 0 {
        None
    } else {
        Some(ring[successor_or_equal(ring, digest)].1)
    }
}

} // verus!
