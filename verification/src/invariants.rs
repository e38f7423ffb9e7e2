use crate::hash_oracle::HashOracle;
use crate::placement::{
    entries_owned, grow, grow_member, grow_step, label_position, labelled, labels_accepted,
    new_labels_accepted, resize, resized, shrink, shrink_member, shrink_step, uprooted, valid,
    RingState,
};
use crate::ring::{
    holds, lemma_with_entry, lemma_with_entry_origin, lemma_without_entry,
    lemma_without_entry_origin, ordered, with_entry, without_entry, Entries,
};
use vstd::prelude::*;

verus! {

/// A state stays valid, but for the entries of the newcomer, when a node
/// that is no member is listed and the oracle is defined on its labels.
pub proof fn lemma_pushed_member<H: HashOracle>(state: RingState, node: Seq<char>)
    requires
        valid::<H>(state),
        !state.nodes.contains(node),
        labels_accepted::<H>(node, 0, state.virtual_nodes_count),
    ensures
        state.nodes.push(node).no_duplicates(),
        entries_owned::<H>(state.ring, state.nodes.push(node), state.virtual_nodes_count),
        forall|k: int|
            0 <= k < state.nodes.push(node).len() ==> labels_accepted::<H>(
                #[trigger] state.nodes.push(node)[k],
                0,
                state.virtual_nodes_count,
            ),
{
    let pushed = state.nodes.push(node);
    assert forall|i: int, j: int| 0 <= i < j < pushed.len() implies pushed[i] != pushed[j] by {
        if j < state.nodes.len() {
            assert(state.nodes[i] != state.nodes[j]);
        } else {
            assert(state.nodes.contains(state.nodes[i]));
        }
    }
    assert forall|j: int| 0 <= j < state.ring.len() implies pushed.contains(
        (#[trigger] state.ring[j]).1,
    ) && labelled::<H>(state.ring[j].1, state.ring[j].0, state.virtual_nodes_count) by {
        let owner = state.ring[j].1;
        assert(state.nodes.contains(owner));
        let k = choose|k: int| 0 <= k < state.nodes.len() && state.nodes[k] == owner;
        assert(pushed[k] == owner);
    }
    assert forall|k: int| 0 <= k < pushed.len() implies labels_accepted::<H>(
        #[trigger] pushed[k],
        0,
        state.virtual_nodes_count,
    ) by {
        if k < state.nodes.len() {
            assert(pushed[k] == state.nodes[k]);
        }
    }
}

/// Storing the `index`-th virtual node of the member `node` keeps every
/// entry with a member, at the position of one of its virtual nodes.
pub proof fn lemma_planted_owned<H: HashOracle>(
    ring: Entries,
    nodes: Seq<Seq<char>>,
    count: u32,
    node: Seq<char>,
    index: u32,
)
    requires
        ordered(ring),
        entries_owned::<H>(ring, nodes, count),
        nodes.contains(node),
        index < count,
    ensures
        entries_owned::<H>(with_entry(ring, label_position::<H>(node, index), node), nodes, count),
{
    let position = label_position::<H>(node, index);
    let t = with_entry(ring, position, node);
    lemma_with_entry_origin(ring, position, node);
    assert forall|j: int| 0 <= j < t.len() implies nodes.contains((#[trigger] t[j]).1)
        && labelled::<H>(t[j].1, t[j].0, count) by {
        if t[j] == (position, node) {
            assert(label_position::<H>(node, index) == position);
        } else {
            assert(ring.contains(t[j]));
            let k = choose|k: int| 0 <= k < ring.len() && ring[k] == t[j];
            assert(nodes.contains(ring[k].1));
        }
    }
}

/// Without the member at `index` no member is listed twice, the list is the
/// one that the state has after that member left, and the oracle is defined
/// on the labels of those who stay.
pub proof fn lemma_removed_member<H: HashOracle>(state: RingState, index: int)
    requires
        valid::<H>(state),
        0 <= index < state.nodes.len(),
    ensures
        state.nodes.index_of(state.nodes[index]) == index,
        state.nodes.remove(index).no_duplicates(),
        !state.nodes.remove(index).contains(state.nodes[index]),
        forall|k: int|
            0 <= k < state.nodes.remove(index).len() ==> labels_accepted::<H>(
                #[trigger] state.nodes.remove(index)[k],
                0,
                state.virtual_nodes_count,
            ),
{
    let rest = state.nodes.remove(index);
    let found = state.nodes.index_of(state.nodes[index]);
    assert(0 <= found < state.nodes.len() && state.nodes[found] == state.nodes[index]);
    assert forall|i: int, j: int| 0 <= i < j < rest.len() implies rest[i] != rest[j] by {
        let a = if i < index {
            i
        } else {
            i + 1
        };
        let b = if j < index {
            j
        } else {
            j + 1
        };
        assert(rest[i] == state.nodes[a] && rest[j] == state.nodes[b]);
    }
    assert forall|k: int| 0 <= k < rest.len() implies rest[k] != state.nodes[index]
        && labels_accepted::<H>(#[trigger] rest[k], 0, state.virtual_nodes_count) by {
        let a = if k < index {
            k
        } else {
            k + 1
        };
        assert(rest[k] == state.nodes[a]);
    }
}

/// What is left of a ring when the positions of the first `count` virtual
/// nodes of `node` are taken out: the ring stays in order, each entry was
/// there before, and none stands at one of those positions.
pub proof fn lemma_uprooted_entries<H: HashOracle>(s: Entries, node: Seq<char>, count: nat)
    requires
        ordered(s),
        count <= u32::MAX,
    ensures
        ordered(uprooted::<H>(s, node, count)),
        uprooted::<H>(s, node, count).len() <= s.len(),
        forall|j: int|
            0 <= j < uprooted::<H>(s, node, count).len() ==> s.contains(
                #[trigger] uprooted::<H>(s, node, count)[j],
            ) && !labelled::<H>(node, uprooted::<H>(s, node, count)[j].0, count as u32),
    decreases count,
{
    if count > 0 {
        let before = uprooted::<H>(s, node, (count - 1) as nat);
        let position = label_position::<H>(node, (count - 1) as u32);
        let after = uprooted::<H>(s, node, count);
        lemma_uprooted_entries::<H>(s, node, (count - 1) as nat);
        lemma_without_entry(before, position);
        lemma_without_entry_origin(before, position);
        assert forall|j: int| 0 <= j < after.len() implies s.contains(#[trigger] after[j])
            && !labelled::<H>(node, after[j].0, count as u32) by {
            assert(before.contains(after[j]));
            let k = choose|k: int| 0 <= k < before.len() && before[k] == after[j];
            assert(s.contains(before[k]));
            assert(!labelled::<H>(node, before[k].0, (count - 1) as u32));
            if labelled::<H>(node, after[j].0, count as u32) {
                let i = choose|i: u32|
                    i < count as u32 && #[trigger] label_position::<H>(node, i) == after[j].0;
                if i < count - 1 {
                    assert(labelled::<H>(node, before[k].0, (count - 1) as u32));
                }
            }
        }
    } else {
        assert forall|j: int| 0 <= j < s.len() implies s.contains(#[trigger] s[j]) by {}
    }
}

/// The state is valid after the member at `index` has left.
pub proof fn lemma_uprooted<H: HashOracle>(state: RingState, index: int)
    requires
        valid::<H>(state),
        0 <= index < state.nodes.len(),
    ensures
        entries_owned::<H>(
            uprooted::<H>(state.ring, state.nodes[index], state.virtual_nodes_count as nat),
            state.nodes.remove(index),
            state.virtual_nodes_count,
        ),
{
    let node = state.nodes[index];
    let rest = state.nodes.remove(index);
    let after = uprooted::<H>(state.ring, node, state.virtual_nodes_count as nat);
    lemma_uprooted_entries::<H>(state.ring, node, state.virtual_nodes_count as nat);
    assert forall|j: int| 0 <= j < after.len() implies rest.contains((#[trigger] after[j]).1)
        && labelled::<H>(after[j].1, after[j].0, state.virtual_nodes_count) by {
        assert(state.ring.contains(after[j]));
        let k = choose|k: int| 0 <= k < state.ring.len() && state.ring[k] == after[j];
        let owner = state.ring[k].1;
        assert(state.nodes.contains(owner));
        assert(labelled::<H>(owner, state.ring[k].0, state.virtual_nodes_count));
        assert(owner != node);
        let m = choose|m: int| 0 <= m < state.nodes.len() && state.nodes[m] == owner;
        if m < index {
            assert(rest[m] == owner);
        } else {
            assert(rest[m - 1] == owner);
        }
    }
}

/// Entries that stand at the position of one of the first `narrow` virtual
/// nodes of their owner also stand at that of one of the first `wide`.
pub proof fn lemma_owned_widened<H: HashOracle>(
    ring: Entries,
    nodes: Seq<Seq<char>>,
    narrow: u32,
    wide: u32,
)
    requires
        entries_owned::<H>(ring, nodes, narrow),
        narrow <= wide,
    ensures
        entries_owned::<H>(ring, nodes, wide),
{
    assert forall|j: int| 0 <= j < ring.len() implies nodes.contains((#[trigger] ring[j]).1)
        && labelled::<H>(ring[j].1, ring[j].0, wide) by {
        assert(labelled::<H>(ring[j].1, ring[j].0, narrow));
        let i = choose|i: u32|
            i < narrow && #[trigger] label_position::<H>(ring[j].1, i) == ring[j].0;
        assert(i < wide && label_position::<H>(ring[j].1, i) == ring[j].0);
    }
}

/// The virtual nodes `from..to` of a member keep the ring in order and every
/// entry with a member, and ask for one transfer each at most.
pub proof fn lemma_grow_member<H: HashOracle>(
    s: Entries,
    nodes: Seq<Seq<char>>,
    node: Seq<char>,
    from: nat,
    to: nat,
    count: u32,
)
    requires
        ordered(s),
        entries_owned::<H>(s, nodes, count),
        nodes.contains(node),
        from <= to <= count,
    ensures
        ordered(grow_member::<H>(s, node, from, to).0),
        entries_owned::<H>(grow_member::<H>(s, node, from, to).0, nodes, count),
        grow_member::<H>(s, node, from, to).0.len() <= s.len() + (to - from),
        grow_member::<H>(s, node, from, to).1.len() <= to - from,
    decreases to,
{
    if to > from {
        lemma_grow_member::<H>(s, nodes, node, from, (to - 1) as nat, count);
        let before = grow_member::<H>(s, node, from, (to - 1) as nat).0;
        lemma_with_entry(before, label_position::<H>(node, (to - 1) as u32), node);
        lemma_planted_owned::<H>(before, nodes, count, node, (to - 1) as u32);
        let step = grow_step::<H>(before, node, (to - 1) as u32);
        assert(step.1.len() <= 1);
        assert(grow_member::<H>(s, node, from, to).1 == grow_member::<H>(
            s,
            node,
            from,
            (to - 1) as nat,
        ).1 + step.1);
    }
}

/// The virtual nodes `from..to` of the first `members` keep the ring in
/// order and every entry with a member, and ask for one transfer each at
/// most.
pub proof fn lemma_grow<H: HashOracle>(
    s: Entries,
    nodes: Seq<Seq<char>>,
    members: nat,
    from: nat,
    to: nat,
    count: u32,
)
    requires
        ordered(s),
        entries_owned::<H>(s, nodes, count),
        members <= nodes.len(),
        from <= to <= count,
    ensures
        ordered(grow::<H>(s, nodes, members, from, to).0),
        entries_owned::<H>(grow::<H>(s, nodes, members, from, to).0, nodes, count),
        grow::<H>(s, nodes, members, from, to).0.len() <= s.len() + members * (to - from),
        grow::<H>(s, nodes, members, from, to).1.len() <= members * (to - from),
    decreases members,
{
    if members > 0 {
        lemma_grow::<H>(s, nodes, (members - 1) as nat, from, to, count);
        let before = grow::<H>(s, nodes, (members - 1) as nat, from, to).0;
        lemma_grow_member::<H>(before, nodes, nodes[members - 1], from, to, count);
        assert(members * (to - from) == (members - 1) * (to - from) + (to - from))
            by (nonlinear_arith);
    } else {
        assert(members * (to - from) == 0) by (nonlinear_arith)
            requires
                members == 0,
        ;
    }
}

/// None of the positions of the virtual nodes `from..to` of `node` is stored.
pub open spec fn cleared<H: HashOracle>(ring: Entries, node: Seq<char>, from: nat, to: nat) -> bool {
    forall|i: u32| from <= i < to ==> !holds(ring, #[trigger] label_position::<H>(node, i))
}

/// Every entry of `part` is an entry of `whole`.
pub open spec fn within(part: Entries, whole: Entries) -> bool {
    forall|j: int| 0 <= j < part.len() ==> whole.contains(#[trigger] part[j])
}

/// What is not stored in the whole is not stored in a part.
pub proof fn lemma_within_holds(part: Entries, whole: Entries, position: u64)
    requires
        within(part, whole),
        !holds(whole, position),
    ensures
        !holds(part, position),
{
    if holds(part, position) {
        let j = choose|j: int| 0 <= j < part.len() && #[trigger] part[j].0 == position;
        assert(whole.contains(part[j]));
        let k = choose|k: int| 0 <= k < whole.len() && whole[k] == part[j];
        assert(whole[k].0 == position);
    }
}

/// When the virtual nodes `from..to` of a member go, the ring stays in
/// order, nothing new comes in, none of their positions stays, and each asks
/// for one transfer at most.
pub proof fn lemma_shrink_member<H: HashOracle>(s: Entries, node: Seq<char>, from: nat, to: nat)
    requires
        ordered(s),
        from <= to <= u32::MAX,
    ensures
        ordered(shrink_member::<H>(s, node, from, to).0),
        within(shrink_member::<H>(s, node, from, to).0, s),
        cleared::<H>(shrink_member::<H>(s, node, from, to).0, node, from, to),
        shrink_member::<H>(s, node, from, to).1.len() <= to - from,
    decreases to - from,
{
    if to > from {
        lemma_shrink_member::<H>(s, node, from + 1, to);
        let before = shrink_member::<H>(s, node, from + 1, to).0;
        let position = label_position::<H>(node, from as u32);
        let after = shrink_member::<H>(s, node, from, to).0;
        assert(after == without_entry(before, position));
        let step = shrink_step::<H>(before, node, from as u32);
        assert(step.1.len() <= 1);
        assert(shrink_member::<H>(s, node, from, to).1 == shrink_member::<H>(
            s,
            node,
            from + 1,
            to,
        ).1 + step.1);
        lemma_without_entry(before, position);
        lemma_without_entry_origin(before, position);
        assert(within(after, before));
        assert forall|j: int| 0 <= j < after.len() implies s.contains(#[trigger] after[j]) by {
            assert(before.contains(after[j]));
            let k = choose|k: int| 0 <= k < before.len() && before[k] == after[j];
            assert(s.contains(before[k]));
        }
        assert forall|i: u32| from <= i < to implies !holds(
            after,
            #[trigger] label_position::<H>(node, i),
        ) by {
            if i > from {
                lemma_within_holds(after, before, label_position::<H>(node, i));
            }
        }
    } else {
        assert forall|j: int| 0 <= j < s.len() implies s.contains(#[trigger] s[j]) by {}
    }
}

/// When the virtual nodes `from..to` of the first `members` go, the ring
/// stays in order, nothing new comes in, none of their positions stays, and
/// each asks for one transfer at most.
pub proof fn lemma_shrink<H: HashOracle>(
    s: Entries,
    nodes: Seq<Seq<char>>,
    members: nat,
    from: nat,
    to: nat,
)
    requires
        ordered(s),
        members <= nodes.len(),
        from <= to <= u32::MAX,
    ensures
        ordered(shrink::<H>(s, nodes, members, from, to).0),
        within(shrink::<H>(s, nodes, members, from, to).0, s),
        forall|k: int|
            0 <= k < members ==> cleared::<H>(
                shrink::<H>(s, nodes, members, from, to).0,
                #[trigger] nodes[k],
                from,
                to,
            ),
        shrink::<H>(s, nodes, members, from, to).1.len() <= members * (to - from),
    decreases members,
{
    if members > 0 {
        lemma_shrink::<H>(s, nodes, (members - 1) as nat, from, to);
        let before = shrink::<H>(s, nodes, (members - 1) as nat, from, to).0;
        let after = shrink::<H>(s, nodes, members, from, to).0;
        lemma_shrink_member::<H>(before, nodes[members - 1], from, to);
        assert forall|j: int| 0 <= j < after.len() implies s.contains(#[trigger] after[j]) by {
            assert(before.contains(after[j]));
            let k = choose|k: int| 0 <= k < before.len() && before[k] == after[j];
            assert(s.contains(before[k]));
        }
        assert forall|k: int| 0 <= k < members implies cleared::<H>(
            after,
            #[trigger] nodes[k],
            from,
            to,
        ) by {
            if k < members - 1 {
                assert(cleared::<H>(before, nodes[k], from, to));
                assert forall|i: u32| from <= i < to implies !holds(
                    after,
                    #[trigger] label_position::<H>(nodes[k], i),
                ) by {
                    lemma_within_holds(after, before, label_position::<H>(nodes[k], i));
                }
            }
        }
        assert(members * (to - from) == (members - 1) * (to - from) + (to - from))
            by (nonlinear_arith);
    } else {
        assert forall|j: int| 0 <= j < s.len() implies s.contains(#[trigger] s[j]) by {}
        assert(members * (to - from) == 0) by (nonlinear_arith)
            requires
                members == 0,
        ;
    }
}

/// The state is valid after every member has gone to `count` virtual nodes,
/// and each virtual node that came or went asked for one transfer at most.
pub proof fn lemma_resized<H: HashOracle>(state: RingState, count: u32)
    requires
        valid::<H>(state),
        new_labels_accepted::<H>(state, count),
    ensures
        valid::<H>(resized::<H>(state, count)),
        count >= state.virtual_nodes_count ==> resize::<H>(state, count).1.len()
            <= state.nodes.len() * (count - state.virtual_nodes_count),
        count <= state.virtual_nodes_count ==> resize::<H>(state, count).1.len()
            <= state.nodes.len() * (state.virtual_nodes_count - count),
{
    let after = resized::<H>(state, count);
    let old_count = state.virtual_nodes_count;
    assert forall|k: int| 0 <= k < after.nodes.len() implies labels_accepted::<H>(
        #[trigger] after.nodes[k],
        0,
        count,
    ) by {
        assert(labels_accepted::<H>(state.nodes[k], 0, old_count));
        assert(labels_accepted::<H>(state.nodes[k], old_count, count));
    }
    if count > old_count {
        lemma_owned_widened::<H>(state.ring, state.nodes, old_count, count);
        lemma_grow::<H>(
            state.ring,
            state.nodes,
            state.nodes.len(),
            old_count as nat,
            count as nat,
            count,
        );
    } else {
        lemma_shrink::<H>(
            state.ring,
            state.nodes,
            state.nodes.len(),
            count as nat,
            old_count as nat,
        );
        let ring = after.ring;
        assert forall|j: int| 0 <= j < ring.len() implies state.nodes.contains(
            (#[trigger] ring[j]).1,
        ) && labelled::<H>(ring[j].1, ring[j].0, count) by {
            assert(state.ring.contains(ring[j]));
            let e = choose|e: int| 0 <= e < state.ring.len() && state.ring[e] == ring[j];
            let owner = state.ring[e].1;
            assert(state.nodes.contains(owner));
            assert(labelled::<H>(owner, state.ring[e].0, old_count));
            let i = choose|i: u32|
                i < old_count && #[trigger] label_position::<H>(owner, i) == ring[j].0;
            let k = choose|k: int| 0 <= k < state.nodes.len() && state.nodes[k] == owner;
            assert(cleared::<H>(ring, state.nodes[k], count as nat, old_count as nat));
            if i >= count {
                assert(!holds(ring, label_position::<H>(owner, i)));
                assert(ring[j].0 == label_position::<H>(owner, i));
            }
        }
    }
}

} // verus!
