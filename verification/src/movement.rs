use crate::hash_oracle::HashOracle;
use crate::laws::{
    fresh, law_joined_owns, law_successor_or_equal, lemma_lookup_in_part, lemma_planted_owner,
    lemma_sweep_members, lemma_uprooted_owner, lemma_walk_forward_passes,
};
use crate::placement::{
    block_positions, block_predecessor, block_successor, block_transfer, grow_step, joined,
    joining_transfers, label_position, labelled, leaving_transfers, left, lookup, passed_back,
    passed_forward, shrink_step, sweep, valid, walk_back, walk_forward, RingState,
};
use crate::ring::{
    below, holds, lemma_below_splits, lemma_neighbours, lemma_owner_at, lemma_with_entry,
    lemma_with_entry_owner, lemma_without_entry, lemma_without_entry_owner, ordered, owner_at,
    predecessor, successor, successor_or_equal, with_entry, without_entry, Entries,
};
use crate::transaction::{in_range, TransactionView};
use vstd::prelude::*;

verus! {

/// Whether the index `j` lies on the way round the circle from just after
/// `from` up to `to`.
pub open spec fn after_up_to(from: int, to: int, j: int) -> bool {
    if from < to {
        from < j <= to
    } else if to < from {
        from < j || j <= to
    } else {
        false
    }
}

/// Whether the index `j` lies on the way round the circle from `from` up to
/// just before `to`.
pub open spec fn from_up_to(from: int, to: int, j: int) -> bool {
    if from < to {
        from <= j < to
    } else if to < from {
        from <= j || j < to
    } else {
        false
    }
}

/// A walk against the order that can reach an entry of another node leaves
/// only entries of `node` behind.
pub proof fn lemma_walk_back_leaves(s: Entries, node: Seq<char>, at: int, fuel: nat, other: int)
    requires
        ordered(s),
        0 <= at < s.len(),
        0 <= other < s.len(),
        s[other].1 != node,
        fuel >= if at >= other {
            at - other
        } else {
            at - other + s.len()
        },
    ensures
        0 <= walk_back(s, node, at, fuel) < s.len(),
        s[walk_back(s, node, at, fuel)].1 != node,
        forall|j: int|
            0 <= j < s.len() && after_up_to(walk_back(s, node, at, fuel), at, j) ==> (
            #[trigger] s[j]).1 == node,
    decreases fuel,
{
    if fuel > 0 && s[at].1 == node {
        lemma_neighbours(s, at);
        let before = predecessor(s, s[at].0);
        lemma_walk_back_leaves(s, node, before, (fuel - 1) as nat, other);
        let end = walk_back(s, node, at, fuel);
        assert forall|j: int| 0 <= j < s.len() && after_up_to(end, at, j) implies (
        #[trigger] s[j]).1 == node by {
            if j != at {
                assert(after_up_to(end, before, j));
            }
        }
    }
}

/// A walk with the order that can reach an entry of another node leaves only
/// entries of `node` behind.
pub proof fn lemma_walk_forward_leaves(
    s: Entries,
    node: Seq<char>,
    at: int,
    fuel: nat,
    other: int,
)
    requires
        ordered(s),
        0 <= at < s.len(),
        0 <= other < s.len(),
        s[other].1 != node,
        fuel >= if other >= at {
            other - at
        } else {
            other - at + s.len()
        },
    ensures
        0 <= walk_forward(s, node, at, fuel) < s.len(),
        s[walk_forward(s, node, at, fuel)].1 != node,
        forall|j: int|
            0 <= j < s.len() && from_up_to(at, walk_forward(s, node, at, fuel), j) ==> (
            #[trigger] s[j]).1 == node,
    decreases fuel,
{
    if fuel > 0 && s[at].1 == node {
        lemma_neighbours(s, at);
        let after = successor(s, s[at].0);
        lemma_walk_forward_leaves(s, node, after, (fuel - 1) as nat, other);
        let end = walk_forward(s, node, at, fuel);
        assert forall|j: int| 0 <= j < s.len() && from_up_to(at, end, j) implies (
        #[trigger] s[j]).1 == node by {
            if j != at {
                assert(from_up_to(after, end, j));
            }
        }
    }
}

/// On a ring that holds an entry of another node, the block of `node` around
/// one of its positions lies between an entry of another node before it and
/// an entry of another node after it, and all entries in between belong to
/// `node`.
pub proof fn lemma_block(s: Entries, node: Seq<char>, position: u64)
    requires
        ordered(s),
        owner_at(s, position) == Some(node),
        exists|j: int| 0 <= j < s.len() && (#[trigger] s[j]).1 != node,
    ensures
        0 <= block_predecessor(s, node, position) < s.len(),
        0 <= block_successor(s, node, position) < s.len(),
        s[block_predecessor(s, node, position)].1 != node,
        s[block_successor(s, node, position)].1 != node,
        predecessor(s, s[block_successor(s, node, position)].0) == if block_successor(
            s,
            node,
            position,
        ) == 0 {
            s.len() - 1
        } else {
            block_successor(s, node, position) - 1
        },
        forall|j: int|
            0 <= j < s.len() && after_up_to(
                block_predecessor(s, node, position),
                predecessor(s, s[block_successor(s, node, position)].0),
                j,
            ) ==> (#[trigger] s[j]).1 == node,
        after_up_to(
            block_predecessor(s, node, position),
            predecessor(s, s[block_successor(s, node, position)].0),
            below(s, position as int),
        ),
{
    let other = choose|j: int| 0 <= j < s.len() && (#[trigger] s[j]).1 != node;
    lemma_owner_at(s, position);
    let here = choose|k: int| 0 <= k < s.len() && s[k] == (position, node);
    lemma_neighbours(s, here);
    let back = predecessor(s, position);
    let forth = successor(s, position);
    lemma_walk_back_leaves(s, node, back, s.len(), other);
    lemma_walk_forward_leaves(s, node, forth, s.len(), other);
    let before = block_predecessor(s, node, position);
    let after = block_successor(s, node, position);
    lemma_neighbours(s, after);
    let boundary = predecessor(s, s[after].0);
    assert(s[before].1 != node);
    assert(s[after].1 != node);
    assert(s[here].1 == node);
    assert(!after_up_to(before, back, after));
    assert(!from_up_to(forth, after, before));
    assert forall|j: int| 0 <= j < s.len() && after_up_to(before, boundary, j) implies (
    #[trigger] s[j]).1 == node by {
        if j != here {
            assert(after_up_to(before, back, j) || from_up_to(forth, after, j));
        }
    }
}

/// Whether `position` lies on the way round the circle from `digest` up to
/// just before `end`.
pub open spec fn on_the_way(digest: u64, end: u64, position: u64) -> bool {
    if digest <= end {
        digest <= position < end
    } else {
        digest <= position || position < end
    }
}

/// A digest in the range after the entry `before` up to the entry `last`
/// belongs to one of the entries after `before` up to `last`.
pub proof fn lemma_covered_is_inside(s: Entries, before: int, last: int, digest: u64)
    requires
        ordered(s),
        0 <= before < s.len(),
        0 <= last < s.len(),
        before != last,
        in_range(s[before].0, s[last].0, digest),
    ensures
        0 <= successor_or_equal(s, digest) < s.len(),
        after_up_to(before, last, successor_or_equal(s, digest)),
{
    lemma_below_splits(s, digest as int);
    let r = below(s, digest as int);
    if before < last {
        assert(s[before].0 < s[last].0);
    } else {
        assert(s[last].0 < s[before].0);
    }
}

/// With a digest in the range after the entry `before` up to the entry
/// `last`, no entry outside that stretch stands on the way from the digest to
/// the entry that follows `last`.
pub proof fn lemma_outside_is_off_the_way(
    s: Entries,
    before: int,
    last: int,
    digest: u64,
    outside: int,
)
    requires
        ordered(s),
        0 <= before < s.len(),
        0 <= last < s.len(),
        before != last,
        in_range(s[before].0, s[last].0, digest),
        0 <= outside < s.len(),
        !after_up_to(before, last, outside),
    ensures
        !on_the_way(digest, s[successor(s, s[last].0)].0, s[outside].0),
{
    lemma_neighbours(s, last);
    let next = successor(s, s[last].0);
    if before < last {
        assert(s[before].0 < s[last].0);
    } else {
        assert(s[last].0 < s[before].0);
    }
    if outside < before {
        assert(s[outside].0 < s[before].0);
    } else if outside > before {
        assert(s[before].0 < s[outside].0);
    }
    if outside < last {
        assert(s[outside].0 < s[last].0);
    } else if outside > last {
        assert(s[last].0 < s[outside].0);
    }
    if outside < next {
        assert(s[outside].0 < s[next].0);
    } else if outside > next {
        assert(s[next].0 < s[outside].0);
    }
    if last < next {
        assert(s[last].0 < s[next].0);
    } else if last > next {
        assert(s[next].0 < s[last].0);
    }
}

/// A digest belongs to the owner of a stored position when no stored
/// position stands on the way from the digest to that position.
pub proof fn lemma_lookup_past_gap(s: Entries, digest: u64, end: u64, owner: Seq<char>)
    requires
        ordered(s),
        owner_at(s, end) == Some(owner),
        forall|position: u64| holds(s, position) ==> !on_the_way(digest, end, position),
    ensures
        lookup(s, digest) == Some(owner),
{
    lemma_owner_at(s, end);
    let k = choose|k: int| 0 <= k < s.len() && s[k] == (end, owner);
    law_successor_or_equal(s, digest);
    let r = successor_or_equal(s, digest);
    assert(holds(s, s[r].0));
    assert(s[k].0 == end);
    assert(s[r].0 == end);
    lemma_neighbours(s, r);
    lemma_neighbours(s, k);
}

/// What a transfer says of the keys. On a ring that holds an entry of
/// another node, every digest in the range of the transfer around a position
/// of `node` belongs to `node`; and on the ring that holds the same entries
/// but those of `node`, it belongs to the other node of the transfer.
pub proof fn lemma_block_moves(
    with: Entries,
    without: Entries,
    node: Seq<char>,
    position: u64,
    joining: bool,
    digest: u64,
)
    requires
        ordered(with),
        ordered(without),
        owner_at(with, position) == Some(node),
        exists|j: int| 0 <= j < with.len() && (#[trigger] with[j]).1 != node,
        forall|other: u64|
            #[trigger] owner_at(without, other) == if owner_at(with, other) == Some(node) {
                None
            } else {
                owner_at(with, other)
            },
        block_transfer(with, node, position, joining).covers(digest),
    ensures
        lookup(with, digest) == Some(node),
        lookup(without, digest) == Some(with[block_successor(with, node, position)].1),
{
    lemma_block(with, node, position);
    let before = block_predecessor(with, node, position);
    let after = block_successor(with, node, position);
    let last = predecessor(with, with[after].0);
    let transfer = block_transfer(with, node, position, joining);
    assert(with[last].1 == node) by {
        lemma_owner_at(with, position);
        let here = choose|k: int| 0 <= k < with.len() && with[k] == (position, node);
        lemma_neighbours(with, here);
        lemma_walk_forward_passes(
            with,
            node,
            successor(with, position),
            with.len(),
        );
        lemma_neighbours(with, successor(with, position));
    }
    assert(transfer.begining == with[before].0 && transfer.ending == with[last].0);
    assert(in_range(with[before].0, with[last].0, digest));
    lemma_covered_is_inside(with, before, last, digest);
    lemma_neighbours(with, after);
    lemma_neighbours(with, last);
    assert(successor(with, with[last].0) == after);
    lemma_owner_at(with, with[after].0);
    assert(owner_at(without, with[after].0) == Some(with[after].1));
    assert forall|other: u64| holds(without, other) implies !on_the_way(
        digest,
        with[after].0,
        other,
    ) by {
        lemma_owner_at(without, other);
        lemma_owner_at(with, other);
        let owner = owner_at(without, other).unwrap();
        assert(owner_at(with, other) == Some(owner));
        assert(with.contains((other, owner)));
        let k = choose|k: int| 0 <= k < with.len() && with[k] == (other, owner);
        assert(with[k].1 != node);
        lemma_outside_is_off_the_way(with, before, last, digest, k);
    }
    lemma_lookup_past_gap(without, digest, with[after].0, with[after].1);
}

/// The ring after a node has joined without meeting a stored position: it
/// is in order, the newcomer owns the positions of its virtual nodes, the
/// other positions have the owners they had, and an entry of another node
/// stays if there was one.
pub proof fn lemma_joined_ring<H: HashOracle>(state: RingState, node: Seq<char>)
    requires
        valid::<H>(state),
        !state.nodes.contains(node),
        fresh::<H>(state, node),
        state.ring.len() > 0,
    ensures
        ordered(joined::<H>(state, node).ring),
        forall|i: u32|
            i < state.virtual_nodes_count ==> owner_at(
                joined::<H>(state, node).ring,
                #[trigger] label_position::<H>(node, i),
            ) == Some(node),
        forall|other: u64|
            #[trigger] owner_at(state.ring, other) == if owner_at(
                joined::<H>(state, node).ring,
                other,
            ) == Some(node) {
                None
            } else {
                owner_at(joined::<H>(state, node).ring, other)
            },
        forall|other: u64|
            owner_at(joined::<H>(state, node).ring, other) == Some(node) ==> labelled::<H>(
                node,
                other,
                state.virtual_nodes_count,
            ),
        exists|j: int|
            0 <= j < joined::<H>(state, node).ring.len() && (#[trigger] joined::<H>(
                state,
                node,
            ).ring[j]).1 != node,
        state.nodes.len() > 0,
{
    let count = state.virtual_nodes_count as nat;
    let before = state.ring;
    let after = joined::<H>(state, node).ring;
    lemma_planted_owner::<H>(before, node, count, 0);
    assert forall|i: u32| i < state.virtual_nodes_count implies owner_at(
        after,
        #[trigger] label_position::<H>(node, i),
    ) == Some(node) by {
        law_joined_owns::<H>(state, node, i);
    }
    assert forall|other: u64| #[trigger]
        owner_at(before, other) == if owner_at(after, other) == Some(node) {
            None
        } else {
            owner_at(after, other)
        } by {
        lemma_planted_owner::<H>(before, node, count, other);
        lemma_owner_at(before, other);
        if labelled::<H>(node, other, count as u32) {
            let k = choose|k: u32|
                k < count as u32 && #[trigger] label_position::<H>(node, k) == other;
            assert(!holds(before, label_position::<H>(node, k)));
        } else if owner_at(before, other) == Some(node) {
            assert(before.contains((other, node)));
            let j = choose|j: int| 0 <= j < before.len() && before[j] == (other, node);
            assert(state.nodes.contains(before[j].1));
        }
    }
    assert forall|other: u64| owner_at(after, other) == Some(node) implies labelled::<H>(
        node,
        other,
        state.virtual_nodes_count,
    ) by {
        lemma_planted_owner::<H>(before, node, count, other);
        lemma_owner_at(before, other);
        if !labelled::<H>(node, other, count as u32) {
            assert(before.contains((other, node)));
            let j = choose|j: int| 0 <= j < before.len() && before[j] == (other, node);
            assert(state.nodes.contains(before[j].1));
        }
    }
    let first = before[0];
    assert(state.nodes.contains(first.1));
    lemma_neighbours(before, 0);
    lemma_owner_at(before, first.0);
    assert(owner_at(before, first.0) == Some(first.1));
    assert(owner_at(after, first.0) == Some(first.1));
    lemma_owner_at(after, first.0);
    assert(after.contains(first));
    let j = choose|j: int| 0 <= j < after.len() && after[j] == first;
    assert(after[j].1 != node);
}

/// The transfers of a joining say where the keys go. When none of the
/// newcomer's positions was stored before, every digest in the range of one
/// of the transfers belonged to the source of that transfer and belongs to
/// the newcomer now.
pub proof fn law_joining_moves<H: HashOracle>(
    state: RingState,
    node: Seq<char>,
    index: int,
    digest: u64,
)
    requires
        valid::<H>(state),
        !state.nodes.contains(node),
        fresh::<H>(state, node),
        state.ring.len() > 0,
        0 <= index < joining_transfers::<H>(state, node).len(),
        joining_transfers::<H>(state, node)[index].covers(digest),
    ensures
        lookup(state.ring, digest) == Some(joining_transfers::<H>(state, node)[index].source),
        lookup(joined::<H>(state, node).ring, digest) == Some(node),
{
    let count = state.virtual_nodes_count as nat;
    let before = state.ring;
    let after = joined::<H>(state, node).ring;
    lemma_sweep_members::<H>(after, node, count, true, index);
    let i = choose|i: u32|
        i < count && sweep::<H>(after, node, count, true).0[index] == block_transfer(
            after,
            node,
            #[trigger] label_position::<H>(node, i),
            true,
        );
    let position = label_position::<H>(node, i);
    lemma_joined_ring::<H>(state, node);
    lemma_block_moves(after, before, node, position, true, digest);
}

/// The transfers of a leaving say where the keys go. When the leaver owns
/// the position of each of its virtual nodes and the ring holds an entry of
/// another node, every digest in the range of one of the transfers belonged
/// to the leaver and belongs to the destination of that transfer afterwards.
pub proof fn law_leaving_moves<H: HashOracle>(
    state: RingState,
    node: Seq<char>,
    index: int,
    digest: u64,
)
    requires
        valid::<H>(state),
        forall|i: u32|
            i < state.virtual_nodes_count ==> owner_at(
                state.ring,
                #[trigger] label_position::<H>(node, i),
            ) == Some(node),
        exists|j: int| 0 <= j < state.ring.len() && (#[trigger] state.ring[j]).1 != node,
        0 <= index < leaving_transfers::<H>(state, node).len(),
        leaving_transfers::<H>(state, node)[index].covers(digest),
    ensures
        lookup(state.ring, digest) == Some(node),
        lookup(left::<H>(state, node).ring, digest) == Some(
            leaving_transfers::<H>(state, node)[index].destination,
        ),
{
    let count = state.virtual_nodes_count as nat;
    let before = state.ring;
    let after = left::<H>(state, node).ring;
    lemma_sweep_members::<H>(before, node, count, false, index);
    let i = choose|i: u32|
        i < count && sweep::<H>(before, node, count, false).0[index] == block_transfer(
            before,
            node,
            #[trigger] label_position::<H>(node, i),
            false,
        );
    let position = label_position::<H>(node, i);
    lemma_uprooted_owner::<H>(before, node, count, 0);
    assert forall|other: u64| #[trigger]
        owner_at(after, other) == if owner_at(before, other) == Some(node) {
            None
        } else {
            owner_at(before, other)
        } by {
        lemma_uprooted_owner::<H>(before, node, count, other);
        lemma_owner_at(before, other);
        if labelled::<H>(node, other, count as u32) {
            let k = choose|k: u32|
                k < count as u32 && #[trigger] label_position::<H>(node, k) == other;
            assert(owner_at(before, label_position::<H>(node, k)) == Some(node));
        } else if owner_at(before, other) == Some(node) {
            assert(before.contains((other, node)));
            let j = choose|j: int| 0 <= j < before.len() && before[j] == (other, node);
            assert(labelled::<H>(before[j].1, before[j].0, state.virtual_nodes_count));
        }
    }
    lemma_block_moves(before, after, node, position, false, digest);
}

/// Whether `other` is stored in the block of `node` around `position`:
/// after the entry before the block and not after its last entry.
pub open spec fn in_block(s: Entries, node: Seq<char>, position: u64, other: u64) -> bool {
    holds(s, other) && after_up_to(
        block_predecessor(s, node, position),
        predecessor(s, s[block_successor(s, node, position)].0),
        below(s, other as int),
    )
}

/// The positions that a walk against the order leaves behind are those of
/// the entries it has passed.
pub proof fn lemma_passed_back(
    s: Entries,
    node: Seq<char>,
    at: int,
    fuel: nat,
    other: int,
    position: u64,
)
    requires
        ordered(s),
        0 <= at < s.len(),
        0 <= other < s.len(),
        s[other].1 != node,
        fuel >= if at >= other {
            at - other
        } else {
            at - other + s.len()
        },
        passed_back(s, node, at, fuel).contains(position),
    ensures
        holds(s, position),
        after_up_to(walk_back(s, node, at, fuel), at, below(s, position as int)),
    decreases fuel,
{
    if fuel > 0 && s[at].1 == node {
        lemma_neighbours(s, at);
        let before = predecessor(s, s[at].0);
        lemma_walk_back_leaves(s, node, before, (fuel - 1) as nat, other);
        if position != s[at].0 {
            lemma_passed_back(s, node, before, (fuel - 1) as nat, other, position);
        }
    }
}

/// The positions that a walk with the order leaves behind are those of the
/// entries it has passed.
pub proof fn lemma_passed_forward(
    s: Entries,
    node: Seq<char>,
    at: int,
    fuel: nat,
    other: int,
    position: u64,
)
    requires
        ordered(s),
        0 <= at < s.len(),
        0 <= other < s.len(),
        s[other].1 != node,
        fuel >= if other >= at {
            other - at
        } else {
            other - at + s.len()
        },
        passed_forward(s, node, at, fuel).contains(position),
    ensures
        holds(s, position),
        from_up_to(at, walk_forward(s, node, at, fuel), below(s, position as int)),
    decreases fuel,
{
    if fuel > 0 && s[at].1 == node {
        lemma_neighbours(s, at);
        let after = successor(s, s[at].0);
        lemma_walk_forward_leaves(s, node, after, (fuel - 1) as nat, other);
        if position != s[at].0 {
            lemma_passed_forward(s, node, after, (fuel - 1) as nat, other, position);
        }
    }
}

/// The positions seen with a block are stored in the block.
pub proof fn lemma_block_positions(s: Entries, node: Seq<char>, position: u64, other: u64)
    requires
        ordered(s),
        owner_at(s, position) == Some(node),
        exists|j: int| 0 <= j < s.len() && (#[trigger] s[j]).1 != node,
        block_positions(s, node, position).contains(other),
    ensures
        in_block(s, node, position, other),
{
    let foreign = choose|j: int| 0 <= j < s.len() && (#[trigger] s[j]).1 != node;
    lemma_block(s, node, position);
    lemma_owner_at(s, position);
    let here = choose|k: int| 0 <= k < s.len() && s[k] == (position, node);
    lemma_neighbours(s, here);
    let back = predecessor(s, position);
    let forth = successor(s, position);
    let before = block_predecessor(s, node, position);
    let after = block_successor(s, node, position);
    lemma_neighbours(s, after);
    lemma_walk_back_leaves(s, node, back, s.len(), foreign);
    lemma_walk_forward_leaves(s, node, forth, s.len(), foreign);
    assert(s[here].1 == node);
    assert(!after_up_to(before, back, after));
    assert(!from_up_to(forth, after, before));
    let last = predecessor(s, s[after].0);
    let n = s.len() as int;
    assert(last == if after == 0 {
        n - 1
    } else {
        after - 1
    });
    assert(back == if here == 0 {
        n - 1
    } else {
        here - 1
    });
    assert(forth == if here == n - 1 {
        0
    } else {
        here + 1
    });
    assert(after_up_to(before, last, here));
    assert(before != here && after != here);
    if other != position {
        let index = below(s, other as int);
        if passed_back(s, node, back, s.len()).contains(other) {
            lemma_passed_back(s, node, back, s.len(), foreign, other);
            assert(after_up_to(before, back, index));
            assert(after_up_to(before, last, index));
        } else {
            assert(passed_forward(s, node, forth, s.len()).contains(other));
            lemma_passed_forward(s, node, forth, s.len(), foreign, other);
            let k = choose|k: int| 0 <= k < s.len() && #[trigger] s[k].0 == other;
            lemma_neighbours(s, k);
            assert(0 <= index < n);
            assert(from_up_to(forth, after, index));
            assert(s[index].1 == node);
            assert(index != before);
            assert(after_up_to(before, last, index));
        }
    } else {
        assert(holds(s, position));
    }
}

/// A digest that belongs to an entry of a block lies in the range of the
/// block.
pub proof fn lemma_inside_is_covered(s: Entries, before: int, last: int, digest: u64)
    requires
        ordered(s),
        0 <= before < s.len(),
        0 <= last < s.len(),
        before != last,
        after_up_to(before, last, successor_or_equal(s, digest)),
    ensures
        in_range(s[before].0, s[last].0, digest),
{
    lemma_below_splits(s, digest as int);
    let r = below(s, digest as int);
    let j = successor_or_equal(s, digest);
    if before < last {
        assert(s[before].0 < s[last].0);
    } else {
        assert(s[last].0 < s[before].0);
    }
    if r < s.len() {
        if j < last {
            assert(s[j].0 < s[last].0);
        }
        if j > 0 {
            assert(s[j - 1].0 < digest);
            if before < j - 1 {
                assert(s[before].0 < s[j - 1].0);
            }
        }
    } else {
        assert(s[s.len() - 1].0 < digest);
        if before < s.len() - 1 {
            assert(s[before].0 < s[s.len() - 1].0);
        }
    }
}

/// Whether `transfer` is the transfer around a position of `node` in whose
/// block `other` is stored.
pub open spec fn in_range_of(
    s: Entries,
    node: Seq<char>,
    transfer: TransactionView,
    other: u64,
    joining: bool,
) -> bool {
    exists|position: u64|
        owner_at(s, position) == Some(node) && in_block(s, node, position, other)
            && #[trigger] block_transfer(s, node, position, joining) == transfer
}

/// A sweep sees the position of every virtual node it has come to, and
/// every position it has seen is stored in the block of one of its
/// transfers.
pub proof fn lemma_sweep_sees<H: HashOracle>(
    s: Entries,
    node: Seq<char>,
    count: nat,
    joining: bool,
)
    requires
        ordered(s),
        count <= u32::MAX,
        forall|i: u32| i < count ==> owner_at(s, #[trigger] label_position::<H>(node, i)) == Some(node),
        exists|j: int| 0 <= j < s.len() && (#[trigger] s[j]).1 != node,
    ensures
        forall|i: u32|
            i < count ==> sweep::<H>(s, node, count, joining).1.contains(
                #[trigger] label_position::<H>(node, i),
            ),
        forall|other: u64|
            sweep::<H>(s, node, count, joining).1.contains(other) ==> exists|index: int|
                0 <= index < sweep::<H>(s, node, count, joining).0.len() && in_range_of(
                    s,
                    node,
                    #[trigger] sweep::<H>(s, node, count, joining).0[index],
                    other,
                    joining,
                ),
    decreases count,
{
    if count > 0 {
        let before = sweep::<H>(s, node, (count - 1) as nat, joining);
        let after = sweep::<H>(s, node, count, joining);
        let position = label_position::<H>(node, (count - 1) as u32);
        lemma_sweep_sees::<H>(s, node, (count - 1) as nat, joining);
        assert forall|i: u32| i < count implies after.1.contains(
            #[trigger] label_position::<H>(node, i),
        ) by {
            if i < count - 1 {
                assert(before.1.contains(label_position::<H>(node, i)));
            }
        }
        assert forall|other: u64| after.1.contains(other) implies exists|index: int|
            0 <= index < after.0.len() && in_range_of(
                s,
                node,
                #[trigger] after.0[index],
                other,
                joining,
            ) by {
            if before.1.contains(other) {
                let index = choose|index: int|
                    0 <= index < before.0.len() && in_range_of(
                        s,
                        node,
                        #[trigger] before.0[index],
                        other,
                        joining,
                    );
                assert(after.0[index] == before.0[index]);
            } else {
                assert(block_positions(s, node, position).contains(other));
                lemma_block_positions(s, node, position, other);
                let index = before.0.len() as int;
                assert(after.0[index] == block_transfer(s, node, position, joining));
                assert(in_range_of(s, node, after.0[index], other, joining));
            }
        }
    }
}

/// A digest that belongs to an entry in the block of `node` around
/// `position` lies in the range of the transfer around `position`.
pub proof fn lemma_block_covers(
    s: Entries,
    node: Seq<char>,
    position: u64,
    joining: bool,
    digest: u64,
)
    requires
        ordered(s),
        owner_at(s, position) == Some(node),
        exists|j: int| 0 <= j < s.len() && (#[trigger] s[j]).1 != node,
        0 <= successor_or_equal(s, digest) < s.len(),
        in_block(s, node, position, s[successor_or_equal(s, digest)].0),
    ensures
        block_transfer(s, node, position, joining).covers(digest),
{
    lemma_block(s, node, position);
    let before = block_predecessor(s, node, position);
    let last = predecessor(s, s[block_successor(s, node, position)].0);
    assert(s[last].1 == node) by {
        lemma_owner_at(s, position);
        let here = choose|k: int| 0 <= k < s.len() && s[k] == (position, node);
        lemma_neighbours(s, here);
        lemma_walk_forward_passes(s, node, successor(s, position), s.len());
        lemma_neighbours(s, successor(s, position));
    }
    lemma_neighbours(s, successor_or_equal(s, digest));
    lemma_inside_is_covered(s, before, last, digest);
}

/// A digest that belongs to `node` lies in the range of one of the
/// transfers of a sweep over all the virtual nodes of `node`, on a ring on
/// which `node` owns just the positions of its virtual nodes and another
/// node has an entry.
pub proof fn lemma_sweep_covers<H: HashOracle>(
    s: Entries,
    node: Seq<char>,
    count: nat,
    joining: bool,
    digest: u64,
) -> (index: int)
    requires
        ordered(s),
        count <= u32::MAX,
        forall|i: u32|
            i < count ==> owner_at(s, #[trigger] label_position::<H>(node, i)) == Some(node),
        forall|other: u64|
            owner_at(s, other) == Some(node) ==> labelled::<H>(node, other, count as u32),
        exists|j: int| 0 <= j < s.len() && (#[trigger] s[j]).1 != node,
        lookup(s, digest) == Some(node),
    ensures
        0 <= index < sweep::<H>(s, node, count, joining).0.len(),
        sweep::<H>(s, node, count, joining).0[index].covers(digest),
{
    let j = successor_or_equal(s, digest);
    let stored = s[j].0;
    assert(0 <= j < s.len() && owner_at(s, stored) == Some(node)) by {
        law_successor_or_equal(s, digest);
        lemma_neighbours(s, j);
    }
    let i = choose|i: u32| i < count as u32 && #[trigger] label_position::<H>(node, i) == stored;
    let swept = sweep::<H>(s, node, count, joining);
    assert(swept.1.contains(stored)) by {
        lemma_sweep_sees::<H>(s, node, count, joining);
        assert(swept.1.contains(label_position::<H>(node, i)));
    }
    let index = choose|index: int|
        0 <= index < swept.0.len() && in_range_of(
            s,
            node,
            #[trigger] swept.0[index],
            stored,
            joining,
        );
    assert(0 <= index < swept.0.len() && in_range_of(s, node, swept.0[index], stored, joining))
        by {
        lemma_sweep_sees::<H>(s, node, count, joining);
    }
    let position = choose|position: u64|
        owner_at(s, position) == Some(node) && in_block(s, node, position, stored)
            && #[trigger] block_transfer(s, node, position, joining) == swept.0[index];
    lemma_block_covers(s, node, position, joining, digest);
    index
}

/// The transfers of a joining leave no key out. When none of the
/// newcomer's positions was stored before, every digest that belongs to the
/// newcomer lies in the range of one of the transfers.
pub proof fn law_joining_covers<H: HashOracle>(state: RingState, node: Seq<char>, digest: u64)
    requires
        valid::<H>(state),
        !state.nodes.contains(node),
        fresh::<H>(state, node),
        state.ring.len() > 0,
        lookup(joined::<H>(state, node).ring, digest) == Some(node),
    ensures
        exists|index: int|
            0 <= index < joining_transfers::<H>(state, node).len() && (
            #[trigger] joining_transfers::<H>(state, node)[index]).covers(digest),
{
    lemma_joined_ring::<H>(state, node);
    let index = lemma_sweep_covers::<H>(
        joined::<H>(state, node).ring,
        node,
        state.virtual_nodes_count as nat,
        true,
        digest,
    );
    assert(joining_transfers::<H>(state, node)[index].covers(digest));
}

/// The transfers of a leaving leave no key out. When the leaver owns the
/// position of each of its virtual nodes and the ring holds an entry of
/// another node, every digest that belongs to the leaver lies in the range
/// of one of the transfers.
pub proof fn law_leaving_covers<H: HashOracle>(state: RingState, node: Seq<char>, digest: u64)
    requires
        valid::<H>(state),
        forall|i: u32|
            i < state.virtual_nodes_count ==> owner_at(
                state.ring,
                #[trigger] label_position::<H>(node, i),
            ) == Some(node),
        exists|j: int| 0 <= j < state.ring.len() && (#[trigger] state.ring[j]).1 != node,
        lookup(state.ring, digest) == Some(node),
    ensures
        exists|index: int|
            0 <= index < leaving_transfers::<H>(state, node).len() && (
            #[trigger] leaving_transfers::<H>(state, node)[index]).covers(digest),
{
    assert forall|other: u64| owner_at(state.ring, other) == Some(node) implies labelled::<H>(
        node,
        other,
        state.virtual_nodes_count,
    ) by {
        lemma_owner_at(state.ring, other);
        assert(state.ring.contains((other, node)));
        let j = choose|j: int| 0 <= j < state.ring.len() && state.ring[j] == (other, node);
        assert(labelled::<H>(state.ring[j].1, state.ring[j].0, state.virtual_nodes_count));
    }
    let index = lemma_sweep_covers::<H>(
        state.ring,
        node,
        state.virtual_nodes_count as nat,
        false,
        digest,
    );
    assert(leaving_transfers::<H>(state, node)[index].covers(digest));
}

/// One entry more or less. Of two ordered rings that differ in the entry at
/// `position` alone, which the larger one holds, a digest after the entry
/// before `position` and not after `position` belongs to the owner of
/// `position` on the larger ring and to the owner of the entry after it on
/// the smaller one; every other digest has the same owner on both.
pub proof fn lemma_one_entry_moves(with: Entries, without: Entries, position: u64, digest: u64)
    requires
        ordered(with),
        ordered(without),
        without.len() > 0,
        holds(with, position),
        forall|other: u64|
            #[trigger] owner_at(without, other) == if other == position {
                None
            } else {
                owner_at(with, other)
            },
    ensures
        0 <= predecessor(with, position) < with.len(),
        0 <= successor(with, position) < with.len(),
        in_range(with[predecessor(with, position)].0, position, digest) ==> lookup(
            with,
            digest,
        ) == owner_at(with, position) && lookup(without, digest) == Some(
            with[successor(with, position)].1,
        ),
        !in_range(with[predecessor(with, position)].0, position, digest) ==> lookup(
            with,
            digest,
        ) == lookup(without, digest),
{
    let here = choose|k: int| 0 <= k < with.len() && #[trigger] with[k].0 == position;
    lemma_neighbours(with, here);
    let before = predecessor(with, position);
    let after = successor(with, position);
    lemma_neighbours(with, after);
    lemma_neighbours(with, before);
    law_successor_or_equal(with, digest);
    let first = without[0];
    lemma_neighbours(without, 0);
    lemma_owner_at(with, first.0);
    assert(owner_at(without, first.0) == Some(first.1));
    assert(first.0 != position);
    assert(with.contains(first));
    assert(with.len() >= 2) by {
        let k = choose|k: int| 0 <= k < with.len() && with[k] == first;
        assert(k != here);
    }
    assert(before != here && after != here);
    if in_range(with[before].0, position, digest) {
        lemma_covered_is_inside(with, before, here, digest);
        assert(successor_or_equal(with, digest) == here);
        lemma_owner_at(with, with[after].0);
        assert(owner_at(without, with[after].0) == Some(with[after].1));
        assert forall|other: u64| holds(without, other) implies !on_the_way(
            digest,
            with[after].0,
            other,
        ) by {
            lemma_owner_at(without, other);
            lemma_owner_at(with, other);
            let owner = owner_at(without, other).unwrap();
            assert(with.contains((other, owner)));
            let k = choose|k: int| 0 <= k < with.len() && with[k] == (other, owner);
            assert(k != here);
            lemma_outside_is_off_the_way(with, before, here, digest, k);
        }
        lemma_lookup_past_gap(without, digest, with[after].0, with[after].1);
    } else {
        let at = successor_or_equal(with, digest);
        if at == here {
            lemma_inside_is_covered(with, before, here, digest);
        }
        lemma_neighbours(with, at);
        assert(owner_at(without, with[at].0) == Some(with[at].1));
        assert forall|other: u64| holds(without, other) implies holds(with, other) by {
            lemma_owner_at(without, other);
            lemma_owner_at(with, other);
        }
        lemma_lookup_in_part(without, with, digest);
    }
}

/// What one more virtual node does to the keys, when its position was not
/// stored and the ring held an entry: the digests in the range of the
/// transfer go from the source of the transfer to the member, and no other
/// digest changes its owner. Without a transfer no digest changes its owner.
pub proof fn law_grow_step_moves<H: HashOracle>(
    s: Entries,
    node: Seq<char>,
    index: u32,
    digest: u64,
)
    requires
        ordered(s),
        s.len() > 0,
        !holds(s, label_position::<H>(node, index)),
    ensures
        grow_step::<H>(s, node, index).1.len() <= 1,
        grow_step::<H>(s, node, index).1.len() == 1 && grow_step::<H>(s, node, index).1[0].covers(
            digest,
        ) ==> lookup(s, digest) == Some(grow_step::<H>(s, node, index).1[0].source) && lookup(
            grow_step::<H>(s, node, index).0,
            digest,
        ) == Some(node),
        !(grow_step::<H>(s, node, index).1.len() == 1 && grow_step::<H>(
            s,
            node,
            index,
        ).1[0].covers(digest)) ==> lookup(grow_step::<H>(s, node, index).0, digest) == lookup(
            s,
            digest,
        ),
{
    let position = label_position::<H>(node, index);
    let ring = with_entry(s, position, node);
    lemma_with_entry(s, position, node);
    assert forall|other: u64| #[trigger]
        owner_at(s, other) == if other == position {
            None
        } else {
            owner_at(ring, other)
        } by {
        lemma_with_entry_owner(s, position, node, other);
        lemma_owner_at(s, other);
    }
    lemma_with_entry_owner(s, position, node, position);
    lemma_one_entry_moves(ring, s, position, digest);
}

/// What one virtual node less does to the keys, when the member owned its
/// position and the ring holds another entry: the digests in the range of
/// the transfer go from the member to the destination of the transfer, and
/// no other digest changes its owner. Without a transfer no digest changes
/// its owner.
pub proof fn law_shrink_step_moves<H: HashOracle>(
    s: Entries,
    node: Seq<char>,
    index: u32,
    digest: u64,
)
    requires
        ordered(s),
        s.len() > 1,
        owner_at(s, label_position::<H>(node, index)) == Some(node),
    ensures
        shrink_step::<H>(s, node, index).1.len() <= 1,
        shrink_step::<H>(s, node, index).1.len() == 1 && shrink_step::<H>(
            s,
            node,
            index,
        ).1[0].covers(digest) ==> lookup(s, digest) == Some(node) && lookup(
            shrink_step::<H>(s, node, index).0,
            digest,
        ) == Some(shrink_step::<H>(s, node, index).1[0].destination),
        !(shrink_step::<H>(s, node, index).1.len() == 1 && shrink_step::<H>(
            s,
            node,
            index,
        ).1[0].covers(digest)) ==> lookup(shrink_step::<H>(s, node, index).0, digest)
            == lookup(s, digest),
{
    let position = label_position::<H>(node, index);
    let ring = without_entry(s, position);
    lemma_without_entry(s, position);
    lemma_owner_at(s, position);
    assert forall|other: u64| #[trigger]
        owner_at(ring, other) == if other == position {
            None
        } else {
            owner_at(s, other)
        } by {
        lemma_without_entry_owner(s, position, other);
    }
    lemma_one_entry_moves(s, ring, position, digest);
}

} // verus!
