use crate::consistent_hashing::{ConsistentHashing, ConsistentHashingError};
use crate::hash_oracle::HashOracle;
use crate::placement::{
    block_positions, block_transfer, joined, joining_transfers, label_position, labels_accepted,
    passed_back, passed_forward, sweep, walk_back, walk_forward,
};
use crate::laws::law_joining_transfers;
use crate::ring::{lemma_neighbours, predecessor, successor, Ring};
use crate::transaction::{lemma_views_ends, views, Transaction};
use std::collections::HashSet;
use vstd::prelude::*;

verus! {

/// Moves a cursor against the order from the entry `start` to the first
/// entry that `name` does not own, once round the ring at most, and marks the
/// positions it leaves behind as seen.
fn cursor_back(
    ring: &Ring,
    name: &String,
    start: usize,
    seen: &mut HashSet<u64>,
) -> (reached: usize)
    requires
        ring.wf(),
        start < ring@.len(),
    ensures
        reached < ring@.len(),
        reached == walk_back(ring@, name@, start as int, ring@.len()),
        final(seen)@ == old(seen)@.union(passed_back(ring@, name@, start as int, ring@.len())),
{
    let n = ring.len();
    let mut cursor = start;
    let mut steps: usize = 0;
    let mut own = *ring.entry(cursor).1 == *name;
    while steps < n && own
        invariant
            ring.wf(),
            n == ring@.len(),
            steps <= n,
            cursor < n,
            own == (ring@[cursor as int].1 == name@),
            walk_back(ring@, name@, cursor as int, (n - steps) as nat) == walk_back(
                ring@,
                name@,
                start as int,
                n as nat,
            ),
            seen@.union(passed_back(ring@, name@, cursor as int, (n - steps) as nat))
                == old(seen)@.union(passed_back(ring@, name@, start as int, n as nat)),
        decreases n - steps,
    {
        let ghost before = seen@;
        let ghost at = cursor as int;
        seen.insert(ring.entry(cursor).0);
        cursor = if cursor == 0 {
            n - 1
        } else {
            cursor - 1
        };
        own = *ring.entry(cursor).1 == *name;
        proof {
            lemma_neighbours(ring@, at);
            assert(cursor as int == predecessor(ring@, ring@[at].0));
            assert(seen@.union(passed_back(ring@, name@, cursor as int, (n - steps - 1) as nat))
                =~= before.union(passed_back(ring@, name@, at, (n - steps) as nat)));
        }
        steps += 1;
    }
    proof {
        assert(seen@.union(passed_back(ring@, name@, cursor as int, (n - steps) as nat))
            =~= seen@);
    }
    cursor
}

/// Moves a cursor with the order from the entry `start` to the first entry
/// that `name` does not own, once round the ring at most, and marks the
/// positions it leaves behind as seen.
fn cursor_forward(
    ring: &Ring,
    name: &String,
    start: usize,
    seen: &mut HashSet<u64>,
) -> (reached: usize)
    requires
        ring.wf(),
        start < ring@.len(),
    ensures
        reached < ring@.len(),
        reached == walk_forward(ring@, name@, start as int, ring@.len()),
        final(seen)@ == old(seen)@.union(
            passed_forward(ring@, name@, start as int, ring@.len()),
        ),
{
    let n = ring.len();
    let mut cursor = start;
    let mut steps: usize = 0;
    let mut own = *ring.entry(cursor).1 == *name;
    while steps < n && own
        invariant
            ring.wf(),
            n == ring@.len(),
            steps <= n,
            cursor < n,
            own == (ring@[cursor as int].1 == name@),
            walk_forward(ring@, name@, cursor as int, (n - steps) as nat) == walk_forward(
                ring@,
                name@,
                start as int,
                n as nat,
            ),
            seen@.union(passed_forward(ring@, name@, cursor as int, (n - steps) as nat))
                == old(seen)@.union(passed_forward(ring@, name@, start as int, n as nat)),
        decreases n - steps,
    {
        let ghost before = seen@;
        let ghost at = cursor as int;
        seen.insert(ring.entry(cursor).0);
        cursor = if cursor == n - 1 {
            0
        } else {
            cursor + 1
        };
        own = *ring.entry(cursor).1 == *name;
        proof {
            lemma_neighbours(ring@, at);
            assert(cursor as int == successor(ring@, ring@[at].0));
            assert(seen@.union(
                passed_forward(ring@, name@, cursor as int, (n - steps - 1) as nat),
            ) =~= before.union(passed_forward(ring@, name@, at, (n - steps) as nat)));
        }
        steps += 1;
    }
    proof {
        assert(seen@.union(passed_forward(ring@, name@, cursor as int, (n - steps) as nat))
            =~= seen@);
    }
    cursor
}

impl<T: HashOracle> ConsistentHashing<T> {
    /// A cursor on the entry after `hash` on the circle.
    pub fn get_next_node_by_hashv2(&self, hash: u64) -> (cursor: usize)
        requires
            self.wf(),
            self@.ring.len() > 0,
        ensures
            cursor < self@.ring.len(),
            cursor == successor(self@.ring, hash),
    {
        self.ring().successor_index(hash)
    }

    /// A cursor on the entry before `hash` on the circle.
    pub fn get_previous_node_by_hashv2(&self, hash: u64) -> (cursor: usize)
        requires
            self.wf(),
            self@.ring.len() > 0,
        ensures
            cursor < self@.ring.len(),
            cursor == predecessor(self@.ring, hash),
    {
        self.ring().predecessor_index(hash)
    }

    /// Lets `node` join, as `add_node` does, and returns the same transfers.
    /// The blocks are found with two cursors that move along the entries, the
    /// ring being searched once for each position.
    pub fn add_node_faster(&mut self, node: &str) -> (result: Result<
        Vec<Transaction>,
        ConsistentHashingError,
    >)
        requires
            old(self).wf(),
            labels_accepted::<T>(node@, 0, old(self)@.virtual_nodes_count),
        ensures
            final(self).wf(),
            old(self)@.nodes.contains(node@) ==> {
                &&& result matches Err(ConsistentHashingError::NodeAlreadyExists(_))
                &&& final(self)@ == old(self)@
            },
            !old(self)@.nodes.contains(node@) && old(self)@.virtual_nodes_count == 0 ==> {
                &&& result matches Err(ConsistentHashingError::ZeroVirtualNodes(_))
                &&& final(self)@ == old(self)@
            },
            !old(self)@.nodes.contains(node@) && old(self)@.virtual_nodes_count > 0 ==> {
                &&& final(self)@ == joined::<T>(old(self)@, node@)
                &&& result matches Ok(transactions) && {
                    &&& views(transactions@) == joining_transfers::<T>(old(self)@, node@)
                    &&& transactions@.len() <= old(self)@.virtual_nodes_count
                    &&& old(self)@.nodes.len() == 0 ==> transactions@.len() == 0
                    &&& forall|i: int|
                        0 <= i < transactions@.len() ==> (
                        #[trigger] transactions@[i])@.destination == node@
                }
            },
    {
        proof {
            law_joining_transfers::<T>(old(self)@, node@);
        }
        if self.contains_node(node) {
            return Err(
                ConsistentHashingError::NodeAlreadyExists("This node already exist".to_string()),
            );
        }
        if self.virtual_nodes_count() == 0 {
            return Err(
                ConsistentHashingError::ZeroVirtualNodes(
                    "Cannot add node with zero virtual nodes".to_string(),
                ),
            );
        }
        let first = self.nodes().len() == 0;
        let hashes = self.plant(node);
        let mut transactions: Vec<Transaction> = Vec::new();
        assert(views(transactions@) =~= Seq::empty());
        if first {
            return Ok(transactions);
        }
        assert(hashes@.len() == self@.virtual_nodes_count);
        let name = node.to_owned();
        let ring = self.ring();
        let n = ring.len();
        let mut seen_v_node: HashSet<u64> = HashSet::new();
        let mut i: usize = 0;
        while i < hashes.len()
            invariant
                self.wf(),
                ring@ == self@.ring,
                n == ring@.len(),
                n > 0,
                name@ == node@,
                i <= hashes@.len(),
                hashes@.len() == self@.virtual_nodes_count,
                forall|k: int|
                    0 <= k < hashes@.len() ==> (#[trigger] hashes@[k]).1 == label_position::<T>(
                        node@,
                        k as u32,
                    ),
                (views(transactions@), seen_v_node@) == sweep::<T>(
                    ring@,
                    node@,
                    i as nat,
                    true,
                ),
            decreases hashes@.len() - i,
        {
            let hash = hashes[i].1;
            let ghost before = seen_v_node@;
            let ghost listed = views(transactions@);
            if !seen_v_node.contains(&hash) {
                seen_v_node.insert(hash);
                let backward = self.get_previous_node_by_hashv2(hash);
                let forward = self.get_next_node_by_hashv2(hash);
                let backward = cursor_back(ring, &name, backward, &mut seen_v_node);
                let forward = cursor_forward(ring, &name, forward, &mut seen_v_node);
                let boundary = if forward == 0 {
                    n - 1
                } else {
                    forward - 1
                };
                let prev_node = ring.entry(backward);
                let next_node = ring.entry(forward);
                let final_virtual_node = ring.entry(boundary);
                let new_transaction = Transaction::new(
                    next_node.1.clone(),
                    node.to_owned(),
                    prev_node.0,
                    final_virtual_node.0,
                );
                transactions.push(new_transaction);
                proof {
                    lemma_neighbours(ring@, forward as int);
                    assert(new_transaction@ == block_transfer(ring@, node@, hash, true));
                    assert(views(transactions@) =~= listed.push(new_transaction@));
                    assert(seen_v_node@ =~= before.union(block_positions(ring@, node@, hash)));
                }
            }
            i += 1;
        }
        proof {
            lemma_views_ends(transactions@, node@, true);
        }
        Ok(transactions)
    }
}

} // verus!
