use crate::hash_oracle::HashOracle;
use crate::invariants::lemma_resized;
use crate::placement::{
    block_predecessor, block_successor, block_transfer, initial, joined, joined_all,
    joining_transfers, label_position, labelled, leaving_transfers, left, lookup,
    new_labels_accepted, planted, resize, resized, sweep, uprooted, valid, walk_back,
    walk_forward, RingState,
};
use crate::ring::{
    holds, lemma_below_splits, lemma_neighbours, lemma_owner_at, lemma_same_owners,
    lemma_with_entry, lemma_with_entry_owner, lemma_without_entry, lemma_without_entry_owner,
    ordered, owner_at, predecessor, successor, successor_or_equal, Entries,
};
use vstd::prelude::*;

verus! {

/// The entry after a position is the stored position that follows it most
/// closely: the smallest one above it, or, where none is above it, the
/// smallest one of all.
pub proof fn law_successor(s: Entries, position: u64)
    requires
        ordered(s),
        s.len() > 0,
    ensures
        0 <= successor(s, position) < s.len(),
        forall|j: int|
            0 <= j < s.len() && (#[trigger] s[j]).0 > position ==> position < s[successor(
                s,
                position,
            )].0 <= s[j].0,
        forall|j: int|
            0 <= j < s.len() && s[successor(s, position)].0 <= position ==> (#[trigger] s[j]).0
                <= position && s[successor(s, position)].0 <= s[j].0,
{
    lemma_below_splits(s, position + 1);
    let r = successor(s, position);
    assert forall|j: int| 0 <= j < s.len() && s[r].0 <= position implies (#[trigger] s[j]).0
        <= position && s[r].0 <= s[j].0 by {
        if j > 0 {
            assert(s[0].0 < s[j].0);
        }
    }
    assert forall|j: int| 0 <= j < s.len() && (#[trigger] s[j]).0 > position implies position
        < s[r].0 <= s[j].0 by {
        if r < j {
            assert(s[r].0 < s[j].0);
        }
    }
}

/// The entry before a position is the stored position that precedes it most
/// closely: the largest one below it, or, where none is below it, the largest
/// one of all.
pub proof fn law_predecessor(s: Entries, position: u64)
    requires
        ordered(s),
        s.len() > 0,
    ensures
        0 <= predecessor(s, position) < s.len(),
        forall|j: int|
            0 <= j < s.len() && (#[trigger] s[j]).0 < position ==> s[j].0 <= s[predecessor(
                s,
                position,
            )].0 < position,
        forall|j: int|
            0 <= j < s.len() && s[predecessor(s, position)].0 >= position ==> (#[trigger] s[j]).0
                >= position && s[j].0 <= s[predecessor(s, position)].0,
{
    lemma_below_splits(s, position as int);
    let r = predecessor(s, position);
    assert forall|j: int| 0 <= j < s.len() && s[r].0 >= position implies (#[trigger] s[j]).0
        >= position && s[j].0 <= s[r].0 by {
        if j < s.len() - 1 {
            assert(s[j].0 < s[s.len() - 1].0);
        }
    }
    assert forall|j: int| 0 <= j < s.len() && (#[trigger] s[j]).0 < position implies s[j].0
        <= s[r].0 < position by {
        if j < r {
            assert(s[j].0 < s[r].0);
        }
    }
}

/// The entry that answers for a digest is the smallest stored position that
/// is not less than the digest, or, where all are less, the smallest one of
/// all.
pub proof fn law_successor_or_equal(s: Entries, digest: u64)
    requires
        ordered(s),
        s.len() > 0,
    ensures
        0 <= successor_or_equal(s, digest) < s.len(),
        forall|j: int|
            0 <= j < s.len() && (#[trigger] s[j]).0 >= digest ==> digest
                <= s[successor_or_equal(s, digest)].0 <= s[j].0,
        forall|j: int|
            0 <= j < s.len() && s[successor_or_equal(s, digest)].0 < digest ==> (
            #[trigger] s[j]).0 < digest && s[successor_or_equal(s, digest)].0 <= s[j].0,
{
    lemma_below_splits(s, digest as int);
    let r = successor_or_equal(s, digest);
    assert forall|j: int| 0 <= j < s.len() && s[r].0 < digest implies (#[trigger] s[j]).0
        < digest && s[r].0 <= s[j].0 by {
        if j > 0 {
            assert(s[0].0 < s[j].0);
        }
    }
    assert forall|j: int| 0 <= j < s.len() && (#[trigger] s[j]).0 >= digest implies digest
        <= s[r].0 <= s[j].0 by {
        if r < j {
            assert(s[r].0 < s[j].0);
        }
    }
}

/// On a ring with entries every digest has an owner, and the owner is a
/// member.
pub proof fn law_lookup_is_member<H: HashOracle>(state: RingState, digest: u64)
    requires
        valid::<H>(state),
        state.ring.len() > 0,
    ensures
        lookup(state.ring, digest) is Some,
        state.nodes.contains(lookup(state.ring, digest).unwrap()),
{
    law_successor_or_equal(state.ring, digest);
}

/// After the first `count` virtual nodes of `node` were stored the ring is in
/// order, `node` owns their positions, and every other position has the
/// owner that it had.
pub proof fn lemma_planted_owner<H: HashOracle>(
    s: Entries,
    node: Seq<char>,
    count: nat,
    position: u64,
)
    requires
        ordered(s),
        count <= u32::MAX,
    ensures
        ordered(planted::<H>(s, node, count)),
        owner_at(planted::<H>(s, node, count), position) == if labelled::<H>(
            node,
            position,
            count as u32,
        ) {
            Some(node)
        } else {
            owner_at(s, position)
        },
    decreases count,
{
    if count > 0 {
        let before = planted::<H>(s, node, (count - 1) as nat);
        let last = label_position::<H>(node, (count - 1) as u32);
        lemma_planted_owner::<H>(s, node, (count - 1) as nat, position);
        lemma_with_entry(before, last, node);
        lemma_with_entry_owner(before, last, node, position);
        if labelled::<H>(node, position, count as u32) {
            let i = choose|i: u32|
                i < count as u32 && #[trigger] label_position::<H>(node, i) == position;
            if i < count - 1 {
                assert(labelled::<H>(node, position, (count - 1) as u32));
            }
        } else {
            if labelled::<H>(node, position, (count - 1) as u32) {
                let i = choose|i: u32|
                    i < (count - 1) as u32 && #[trigger] label_position::<H>(node, i)
                        == position;
                assert(i < count as u32 && label_position::<H>(node, i) == position);
            }
            assert(label_position::<H>(node, (count - 1) as u32) != position);
        }
    }
}

/// After the positions of the first `count` virtual nodes of `node` were
/// taken out the ring is in order, none of them has an owner, and every
/// other position has the owner that it had.
pub proof fn lemma_uprooted_owner<H: HashOracle>(
    s: Entries,
    node: Seq<char>,
    count: nat,
    position: u64,
)
    requires
        ordered(s),
        count <= u32::MAX,
    ensures
        ordered(uprooted::<H>(s, node, count)),
        owner_at(uprooted::<H>(s, node, count), position) == if labelled::<H>(
            node,
            position,
            count as u32,
        ) {
            None
        } else {
            owner_at(s, position)
        },
    decreases count,
{
    if count > 0 {
        let before = uprooted::<H>(s, node, (count - 1) as nat);
        let last = label_position::<H>(node, (count - 1) as u32);
        lemma_uprooted_owner::<H>(s, node, (count - 1) as nat, position);
        lemma_without_entry(before, last);
        lemma_without_entry_owner(before, last, position);
        if labelled::<H>(node, position, count as u32) {
            let i = choose|i: u32|
                i < count as u32 && #[trigger] label_position::<H>(node, i) == position;
            if i < count - 1 {
                assert(labelled::<H>(node, position, (count - 1) as u32));
            }
        } else {
            if labelled::<H>(node, position, (count - 1) as u32) {
                let i = choose|i: u32|
                    i < (count - 1) as u32 && #[trigger] label_position::<H>(node, i)
                        == position;
                assert(i < count as u32 && label_position::<H>(node, i) == position);
            }
            assert(label_position::<H>(node, (count - 1) as u32) != position);
        }
    }
}

/// Right after a node has joined it owns the position of each of its
/// virtual nodes.
pub proof fn law_joined_owns<H: HashOracle>(state: RingState, node: Seq<char>, index: u32)
    requires
        ordered(state.ring),
        index < state.virtual_nodes_count,
    ensures
        owner_at(joined::<H>(state, node).ring, label_position::<H>(node, index)) == Some(node),
{
    lemma_planted_owner::<H>(
        state.ring,
        node,
        state.virtual_nodes_count as nat,
        label_position::<H>(node, index),
    );
}

/// None of the positions of the virtual nodes of `node` is stored in the
/// ring of `state`.
pub open spec fn fresh<H: HashOracle>(state: RingState, node: Seq<char>) -> bool {
    forall|i: u32|
        i < state.virtual_nodes_count ==> !holds(
            state.ring,
            #[trigger] label_position::<H>(node, i),
        )
}

/// The first `count` virtual nodes of `node` stand at different positions.
pub open spec fn spread<H: HashOracle>(node: Seq<char>, count: u32) -> bool {
    forall|i: u32, j: u32|
        i < j < count ==> #[trigger] label_position::<H>(node, i) != #[trigger] label_position::<
            H,
        >(node, j)
}

/// A node that joins and then leaves at once leaves the state as it was,
/// and with it the owner of every digest, provided that none of its
/// positions was stored before it joined.
pub proof fn law_join_then_leave<H: HashOracle>(state: RingState, node: Seq<char>)
    requires
        valid::<H>(state),
        !state.nodes.contains(node),
        fresh::<H>(state, node),
    ensures
        left::<H>(joined::<H>(state, node), node) == state,
        forall|digest: u64|
            lookup(left::<H>(joined::<H>(state, node), node).ring, digest) == lookup(
                state.ring,
                digest,
            ),
{
    let count = state.virtual_nodes_count as nat;
    let between = joined::<H>(state, node);
    let after = left::<H>(between, node);
    assert(after.nodes =~= state.nodes) by {
        let listed = between.nodes;
        let found = listed.index_of(node);
        assert(listed[state.nodes.len() as int] == node);
        assert(0 <= found < listed.len() && listed[found] == node);
        if found < state.nodes.len() {
            assert(state.nodes[found] == node);
            assert(state.nodes.contains(node));
        }
    }
    assert forall|position: u64| owner_at(after.ring, position) == owner_at(
        state.ring,
        position,
    ) by {
        lemma_planted_owner::<H>(state.ring, node, count, position);
        lemma_uprooted_owner::<H>(between.ring, node, count, position);
        if labelled::<H>(node, position, count as u32) {
            lemma_owner_at(state.ring, position);
        }
    }
    lemma_planted_owner::<H>(state.ring, node, count, 0);
    lemma_uprooted_owner::<H>(between.ring, node, count, 0);
    lemma_same_owners(after.ring, state.ring);
}

/// Virtual nodes that stand at different positions, none of them stored
/// before, make the ring longer by one entry each.
pub proof fn lemma_planted_len<H: HashOracle>(s: Entries, node: Seq<char>, count: nat)
    requires
        ordered(s),
        count <= u32::MAX,
        spread::<H>(node, count as u32),
        forall|i: u32| i < count ==> !holds(s, #[trigger] label_position::<H>(node, i)),
    ensures
        planted::<H>(s, node, count).len() == s.len() + count,
    decreases count,
{
    if count > 0 {
        let before = planted::<H>(s, node, (count - 1) as nat);
        let last = label_position::<H>(node, (count - 1) as u32);
        lemma_planted_len::<H>(s, node, (count - 1) as nat);
        lemma_planted_owner::<H>(s, node, (count - 1) as nat, last);
        lemma_with_entry(before, last, node);
        lemma_owner_at(before, last);
        lemma_owner_at(s, last);
        if labelled::<H>(node, last, (count - 1) as u32) {
            let i = choose|i: u32|
                i < (count - 1) as u32 && #[trigger] label_position::<H>(node, i) == last;
            assert(label_position::<H>(node, i) != label_position::<H>(
                node,
                (count - 1) as u32,
            ));
        }
    }
}

/// A node whose virtual nodes stand at different positions, none of them
/// stored before, adds one entry for each of them when it joins.
pub proof fn law_join_size<H: HashOracle>(state: RingState, node: Seq<char>)
    requires
        ordered(state.ring),
        fresh::<H>(state, node),
        spread::<H>(node, state.virtual_nodes_count),
    ensures
        joined::<H>(state, node).ring.len() == state.ring.len() + state.virtual_nodes_count,
{
    lemma_planted_len::<H>(state.ring, node, state.virtual_nodes_count as nat);
}

/// After nodes have joined an empty ring one after the other without any
/// two virtual nodes meeting at one position, the ring holds as many
/// entries as all members together have virtual nodes.
pub proof fn law_ring_size<H: HashOracle>(
    virtual_nodes_count: u32,
    names: Seq<Seq<char>>,
    count: nat,
)
    requires
        count <= names.len(),
        forall|k: nat|
            k < count ==> fresh::<H>(
                #[trigger] joined_all::<H>(initial(virtual_nodes_count), names, k),
                names[k as int],
            ) && spread::<H>(names[k as int], virtual_nodes_count),
    ensures
        ordered(joined_all::<H>(initial(virtual_nodes_count), names, count).ring),
        joined_all::<H>(initial(virtual_nodes_count), names, count).virtual_nodes_count
            == virtual_nodes_count,
        joined_all::<H>(initial(virtual_nodes_count), names, count).nodes.len() == count,
        joined_all::<H>(initial(virtual_nodes_count), names, count).ring.len() == count
            * virtual_nodes_count,
    decreases count,
{
    if count > 0 {
        let before = joined_all::<H>(initial(virtual_nodes_count), names, (count - 1) as nat);
        law_ring_size::<H>(virtual_nodes_count, names, (count - 1) as nat);
        assert(fresh::<H>(before, names[count - 1]));
        law_join_size::<H>(before, names[count - 1]);
        lemma_planted_owner::<H>(before.ring, names[count - 1], virtual_nodes_count as nat, 0);
        assert(count * virtual_nodes_count == (count - 1) * virtual_nodes_count
            + virtual_nodes_count) by (nonlinear_arith);
    } else {
        assert(count * virtual_nodes_count == 0) by (nonlinear_arith)
            requires
                count == 0,
        ;
    }
}

/// A walk against the order that has fuel enough to reach an entry of
/// another node ends on an entry of another node.
pub proof fn lemma_walk_back_ends(s: Entries, node: Seq<char>, at: int, fuel: nat, other: int)
    requires
        ordered(s),
        0 <= at < s.len(),
        0 <= other < s.len(),
        s[other].1 != node,
        fuel >= if at >= other {
            at - other
        } else {
            at - other + s.len()
        },
    ensures
        0 <= walk_back(s, node, at, fuel) < s.len(),
        s[walk_back(s, node, at, fuel)].1 != node,
    decreases fuel,
{
    if fuel > 0 && s[at].1 == node {
        lemma_neighbours(s, at);
        lemma_walk_back_ends(s, node, predecessor(s, s[at].0), (fuel - 1) as nat, other);
    }
}

/// A walk with the order that has fuel enough to reach an entry of another
/// node ends on an entry of another node.
pub proof fn lemma_walk_forward_ends(s: Entries, node: Seq<char>, at: int, fuel: nat, other: int)
    requires
        ordered(s),
        0 <= at < s.len(),
        0 <= other < s.len(),
        s[other].1 != node,
        fuel >= if other >= at {
            other - at
        } else {
            other - at + s.len()
        },
    ensures
        0 <= walk_forward(s, node, at, fuel) < s.len(),
        s[walk_forward(s, node, at, fuel)].1 != node,
    decreases fuel,
{
    if fuel > 0 && s[at].1 == node {
        lemma_neighbours(s, at);
        lemma_walk_forward_ends(s, node, successor(s, s[at].0), (fuel - 1) as nat, other);
    }
}

/// On a ring that holds an entry of another node, the entries before and
/// after a block of `node` belong to other nodes: no node is its own
/// neighbour.
pub proof fn law_block_neighbours(s: Entries, node: Seq<char>, position: u64)
    requires
        ordered(s),
        exists|j: int| 0 <= j < s.len() && (#[trigger] s[j]).1 != node,
    ensures
        0 <= block_predecessor(s, node, position) < s.len(),
        0 <= block_successor(s, node, position) < s.len(),
        s[block_predecessor(s, node, position)].1 != node,
        s[block_successor(s, node, position)].1 != node,
{
    let other = choose|j: int| 0 <= j < s.len() && (#[trigger] s[j]).1 != node;
    law_predecessor(s, position);
    law_successor(s, position);
    lemma_walk_back_ends(s, node, predecessor(s, position), s.len(), other);
    lemma_walk_forward_ends(s, node, successor(s, position), s.len(), other);
}

/// A sweep over the first `count` virtual nodes of `node` gives one transfer
/// for each of them at most, and `node` is the one who takes when it joins
/// and the one who gives when it leaves.
pub proof fn lemma_sweep<H: HashOracle>(s: Entries, node: Seq<char>, count: nat, joining: bool)
    ensures
        sweep::<H>(s, node, count, joining).0.len() <= count,
        forall|i: int|
            0 <= i < sweep::<H>(s, node, count, joining).0.len() ==> if joining {
                (#[trigger] sweep::<H>(s, node, count, joining).0[i]).destination == node
            } else {
                sweep::<H>(s, node, count, joining).0[i].source == node
            },
    decreases count,
{
    if count > 0 {
        lemma_sweep::<H>(s, node, (count - 1) as nat, joining);
    }
}

/// The joining of a node asks for one transfer for each of its virtual nodes
/// at most, each of them to the node that joins, and for none when it is the
/// first member.
pub proof fn law_joining_transfers<H: HashOracle>(state: RingState, node: Seq<char>)
    ensures
        joining_transfers::<H>(state, node).len() <= state.virtual_nodes_count,
        state.nodes.len() == 0 ==> joining_transfers::<H>(state, node).len() == 0,
        forall|i: int|
            0 <= i < joining_transfers::<H>(state, node).len() ==> (
            #[trigger] joining_transfers::<H>(state, node)[i]).destination == node,
{
    lemma_sweep::<H>(
        joined::<H>(state, node).ring,
        node,
        state.virtual_nodes_count as nat,
        true,
    );
}

/// The leaving of a node asks for one transfer for each of its virtual nodes
/// at most, each of them from the node that leaves.
pub proof fn law_leaving_transfers<H: HashOracle>(state: RingState, node: Seq<char>)
    ensures
        leaving_transfers::<H>(state, node).len() <= state.virtual_nodes_count,
        forall|i: int|
            0 <= i < leaving_transfers::<H>(state, node).len() ==> (
            #[trigger] leaving_transfers::<H>(state, node)[i]).source == node,
{
    lemma_sweep::<H>(state.ring, node, state.virtual_nodes_count as nat, false);
}

/// A change of the number of virtual nodes keeps the members and the state
/// valid, and asks for one transfer at most for each virtual node that comes
/// or goes.
pub proof fn law_resize_transfers<H: HashOracle>(state: RingState, count: u32)
    requires
        valid::<H>(state),
        new_labels_accepted::<H>(state, count),
    ensures
        valid::<H>(resized::<H>(state, count)),
        resized::<H>(state, count).nodes == state.nodes,
        count >= state.virtual_nodes_count ==> resize::<H>(state, count).1.len()
            <= state.nodes.len() * (count - state.virtual_nodes_count),
        count <= state.virtual_nodes_count ==> resize::<H>(state, count).1.len()
            <= state.nodes.len() * (state.virtual_nodes_count - count),
{
    lemma_resized::<H>(state, count);
}

/// Two ordered rings, the smaller holding only positions that the larger
/// holds too: a digest whose owner in the larger ring stands at a position of
/// the smaller, with the same owner there, has that owner in the smaller
/// ring as well.
pub proof fn lemma_lookup_in_part(part: Entries, whole: Entries, digest: u64)
    requires
        ordered(part),
        ordered(whole),
        whole.len() > 0,
        forall|position: u64| holds(part, position) ==> holds(whole, position),
        owner_at(part, whole[successor_or_equal(whole, digest)].0) == Some(
            whole[successor_or_equal(whole, digest)].1,
        ),
    ensures
        lookup(part, digest) == lookup(whole, digest),
{
    law_successor_or_equal(whole, digest);
    let e = whole[successor_or_equal(whole, digest)];
    lemma_owner_at(part, e.0);
    assert(part.contains(e));
    let k = choose|k: int| 0 <= k < part.len() && part[k] == e;
    law_successor_or_equal(part, digest);
    let r = part[successor_or_equal(part, digest)];
    assert(holds(part, r.0));
    assert(holds(whole, r.0));
    let j = choose|j: int| 0 <= j < whole.len() && #[trigger] whole[j].0 == r.0;
    assert(whole[j].0 == r.0);
    assert(part[k].0 == e.0);
    assert(r.0 == e.0);
    lemma_neighbours(part, k);
    lemma_neighbours(part, successor_or_equal(part, digest));
}

/// When a node joins, a digest either goes to the newcomer or stays with the
/// owner it had: no key moves between the nodes that were there before.
pub proof fn law_join_moves_to_newcomer<H: HashOracle>(
    state: RingState,
    node: Seq<char>,
    digest: u64,
)
    requires
        ordered(state.ring),
    ensures
        lookup(joined::<H>(state, node).ring, digest) == Some(node) || lookup(
            joined::<H>(state, node).ring,
            digest,
        ) == lookup(state.ring, digest),
{
    let count = state.virtual_nodes_count as nat;
    let after = joined::<H>(state, node).ring;
    lemma_planted_owner::<H>(state.ring, node, count, 0);
    assert forall|position: u64| holds(state.ring, position) implies holds(
        after,
        position,
    ) by {
        lemma_planted_owner::<H>(state.ring, node, count, position);
        lemma_owner_at(state.ring, position);
        lemma_owner_at(after, position);
    }
    if after.len() == 0 {
        if state.ring.len() > 0 {
            assert(holds(state.ring, state.ring[0].0));
            assert(holds(after, state.ring[0].0));
        }
        assert(lookup(after, digest) == lookup(state.ring, digest));
    } else {
        law_successor_or_equal(after, digest);
        let at = successor_or_equal(after, digest);
        let e = after[at];
        if e.1 != node {
            lemma_neighbours(after, at);
            assert(owner_at(after, e.0) == Some(e.1));
            lemma_planted_owner::<H>(state.ring, node, count, e.0);
            assert(owner_at(state.ring, e.0) == Some(e.1));
            lemma_lookup_in_part(state.ring, after, digest);
        } else {
            assert(lookup(after, digest) == Some(node));
        }
    }
}

/// No other node stands at the position of a virtual node of `node`.
pub open spec fn unshared<H: HashOracle>(state: RingState, node: Seq<char>) -> bool {
    forall|i: u32|
        i < state.virtual_nodes_count ==> {
            let owner = owner_at(state.ring, #[trigger] label_position::<H>(node, i));
            owner is None || owner == Some(node)
        }
}

/// When a node leaves, a digest that another node owned stays with that
/// node, provided that no other node stood at a position of a virtual node
/// of the one that leaves.
pub proof fn law_leave_moves_from_leaver<H: HashOracle>(
    state: RingState,
    node: Seq<char>,
    digest: u64,
)
    requires
        ordered(state.ring),
        unshared::<H>(state, node),
    ensures
        lookup(state.ring, digest) == Some(node) || lookup(left::<H>(state, node).ring, digest)
            == lookup(state.ring, digest),
{
    let count = state.virtual_nodes_count as nat;
    let after = left::<H>(state, node).ring;
    lemma_uprooted_owner::<H>(state.ring, node, count, 0);
    assert forall|position: u64| holds(after, position) implies holds(
        state.ring,
        position,
    ) by {
        lemma_uprooted_owner::<H>(state.ring, node, count, position);
        lemma_owner_at(state.ring, position);
        lemma_owner_at(after, position);
    }
    if state.ring.len() == 0 {
        if after.len() > 0 {
            assert(holds(after, after[0].0));
        }
    } else {
        law_successor_or_equal(state.ring, digest);
        let at = successor_or_equal(state.ring, digest);
        let e = state.ring[at];
        if e.1 != node {
            lemma_neighbours(state.ring, at);
            lemma_owner_at(state.ring, e.0);
            lemma_uprooted_owner::<H>(state.ring, node, count, e.0);
            if labelled::<H>(node, e.0, count as u32) {
                let i = choose|i: u32|
                    i < count as u32 && #[trigger] label_position::<H>(node, i) == e.0;
                assert(owner_at(state.ring, label_position::<H>(node, i)) == Some(e.1));
            }
            lemma_lookup_in_part(after, state.ring, digest);
        }
    }
}

/// A walk with the order ends where it began or just after an entry of
/// `node`.
pub proof fn lemma_walk_forward_passes(s: Entries, node: Seq<char>, at: int, fuel: nat)
    requires
        ordered(s),
        0 <= at < s.len(),
    ensures
        0 <= walk_forward(s, node, at, fuel) < s.len(),
        walk_forward(s, node, at, fuel) == at || s[predecessor(
            s,
            s[walk_forward(s, node, at, fuel)].0,
        )].1 == node,
    decreases fuel,
{
    if fuel > 0 && s[at].1 == node {
        let next = successor(s, s[at].0);
        lemma_neighbours(s, at);
        lemma_walk_forward_passes(s, node, next, (fuel - 1) as nat);
        lemma_neighbours(s, next);
    }
}

/// Every transfer of a sweep is the transfer around the position of one of
/// the virtual nodes.
pub proof fn lemma_sweep_members<H: HashOracle>(
    s: Entries,
    node: Seq<char>,
    count: nat,
    joining: bool,
    index: int,
)
    requires
        count <= u32::MAX,
        0 <= index < sweep::<H>(s, node, count, joining).0.len(),
    ensures
        exists|i: u32|
            i < count && sweep::<H>(s, node, count, joining).0[index] == block_transfer(
                s,
                node,
                #[trigger] label_position::<H>(node, i),
                joining,
            ),
    decreases count,
{
    if count > 0 {
        let before = sweep::<H>(s, node, (count - 1) as nat, joining);
        let last = (count - 1) as u32;
        if index < before.0.len() {
            lemma_sweep_members::<H>(s, node, (count - 1) as nat, joining, index);
            let i = choose|i: u32|
                i < count - 1 && before.0[index] == block_transfer(
                    s,
                    node,
                    #[trigger] label_position::<H>(node, i),
                    joining,
                );
            assert(i < count && sweep::<H>(s, node, count, joining).0[index] == block_transfer(
                s,
                node,
                label_position::<H>(node, i),
                joining,
            ));
        } else {
            assert(sweep::<H>(s, node, count, joining).0[index] == block_transfer(
                s,
                node,
                label_position::<H>(node, last),
                joining,
            ));
        }
    }
}

/// On a ring that holds an entry of another node, the transfer around a
/// position of `node` is between `node` and another node, over a range that
/// begins at a position of another node and ends at a position of `node`.
pub proof fn law_block_transfer(s: Entries, node: Seq<char>, position: u64, joining: bool)
    requires
        ordered(s),
        owner_at(s, position) == Some(node),
        exists|j: int| 0 <= j < s.len() && (#[trigger] s[j]).1 != node,
    ensures
        owner_at(s, block_transfer(s, node, position, joining).ending) == Some(node),
        owner_at(s, block_transfer(s, node, position, joining).begining) is Some,
        owner_at(s, block_transfer(s, node, position, joining).begining) != Some(node),
        joining ==> block_transfer(s, node, position, joining).destination == node
            && block_transfer(s, node, position, joining).source != node,
        !joining ==> block_transfer(s, node, position, joining).source == node
            && block_transfer(s, node, position, joining).destination != node,
{
    law_block_neighbours(s, node, position);
    law_successor(s, position);
    let before = block_predecessor(s, node, position);
    let start = successor(s, position);
    let after = block_successor(s, node, position);
    let boundary = predecessor(s, s[after].0);
    lemma_neighbours(s, before);
    lemma_neighbours(s, after);
    lemma_walk_forward_passes(s, node, start, s.len());
    lemma_owner_at(s, position);
    let here = choose|k: int| 0 <= k < s.len() && s[k] == (position, node);
    lemma_neighbours(s, here);
    lemma_neighbours(s, start);
    assert(s[boundary].1 == node);
    lemma_neighbours(s, boundary);
}

/// When a node joins a ring on which an entry of another node stays, every
/// transfer gives the newcomer a range of another node, which begins at a
/// position of another node and ends at a position of the newcomer.
pub proof fn law_joining_ranges<H: HashOracle>(state: RingState, node: Seq<char>, index: int)
    requires
        ordered(state.ring),
        exists|j: int|
            0 <= j < joined::<H>(state, node).ring.len() && (#[trigger] joined::<H>(
                state,
                node,
            ).ring[j]).1 != node,
        0 <= index < joining_transfers::<H>(state, node).len(),
    ensures
        joining_transfers::<H>(state, node)[index].destination == node,
        joining_transfers::<H>(state, node)[index].source != node,
        owner_at(
            joined::<H>(state, node).ring,
            joining_transfers::<H>(state, node)[index].ending,
        ) == Some(node),
        owner_at(
            joined::<H>(state, node).ring,
            joining_transfers::<H>(state, node)[index].begining,
        ) is Some,
        owner_at(
            joined::<H>(state, node).ring,
            joining_transfers::<H>(state, node)[index].begining,
        ) != Some(node),
{
    let count = state.virtual_nodes_count as nat;
    let ring = joined::<H>(state, node).ring;
    lemma_sweep_members::<H>(ring, node, count, true, index);
    let i = choose|i: u32|
        i < count && sweep::<H>(ring, node, count, true).0[index] == block_transfer(
            ring,
            node,
            #[trigger] label_position::<H>(node, i),
            true,
        );
    law_joined_owns::<H>(state, node, i);
    lemma_planted_owner::<H>(state.ring, node, count, 0);
    law_block_transfer(ring, node, label_position::<H>(node, i), true);
}

/// When a node leaves that owns the position of each of its virtual nodes,
/// and the ring holds an entry of another node, every transfer gives a range
/// of the leaver to another node; the range begins at a position of another
/// node and ends at a position of the leaver.
pub proof fn law_leaving_ranges<H: HashOracle>(state: RingState, node: Seq<char>, index: int)
    requires
        ordered(state.ring),
        forall|i: u32|
            i < state.virtual_nodes_count ==> owner_at(
                state.ring,
                #[trigger] label_position::<H>(node, i),
            ) == Some(node),
        exists|j: int| 0 <= j < state.ring.len() && (#[trigger] state.ring[j]).1 != node,
        0 <= index < leaving_transfers::<H>(state, node).len(),
    ensures
        leaving_transfers::<H>(state, node)[index].source == node,
        leaving_transfers::<H>(state, node)[index].destination != node,
        owner_at(state.ring, leaving_transfers::<H>(state, node)[index].ending) == Some(node),
        owner_at(state.ring, leaving_transfers::<H>(state, node)[index].begining) is Some,
        owner_at(state.ring, leaving_transfers::<H>(state, node)[index].begining) != Some(node),
{
    let count = state.virtual_nodes_count as nat;
    lemma_sweep_members::<H>(state.ring, node, count, false, index);
    let i = choose|i: u32|
        i < count && sweep::<H>(state.ring, node, count, false).0[index] == block_transfer(
            state.ring,
            node,
            #[trigger] label_position::<H>(node, i),
            false,
        );
    law_block_transfer(state.ring, node, label_position::<H>(node, i), false);
}

} // verus!
