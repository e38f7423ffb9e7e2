use crate::hash_oracle::HashOracle;
use crate::label::{virtual_label, virtual_node_form};
use crate::placement::{
    block_positions, block_predecessor, block_successor, block_transfer, entries_owned, grow,
    grow_member, grow_step, initial, joined, joined_all, joining_transfers, label_position,
    labels_accepted, leaving_transfers, left, lookup, new_labels_accepted, passed_back,
    passed_forward, planted, resize, resized, shrink, shrink_member, shrink_step, sweep, uprooted,
    valid, walk_back, walk_forward, RingState,
};
use crate::invariants::{
    lemma_planted_owned, lemma_pushed_member, lemma_removed_member, lemma_resized,
    lemma_uprooted,
};
use crate::laws::{law_joining_transfers, law_leaving_transfers};
use crate::ring::{lemma_with_entry, predecessor, successor, Ring};
use crate::transaction::{lemma_views_ends, views, Transaction};
use std::collections::HashSet;
use std::marker::PhantomData;
use vstd::prelude::*;

verus! {

/// Why the ring refused a request. Each kind carries a message for the
/// reader.
#[derive(Debug)]
pub enum ConsistentHashingError {
    /// The node that was to join is a member already.
    NodeAlreadyExists(String),
    /// The node that was to leave is no member.
    NodeDoesNotExist(String),
    /// The ring holds no entries.
    RingIsEmpty(String),
    /// Members cannot join, nor stay, with no virtual nodes.
    ZeroVirtualNodes(String),
    /// The number of virtual nodes asked for is the present one.
    UnchangedVirtualNodeCount(String),
}

/// A hash ring with virtual nodes over the oracle `T`.
pub struct ConsistentHashing<T: HashOracle> {
    ring: Ring,
    nodes: Vec<String>,
    virtual_nodes_count: u32,
    _hasher: PhantomData<T>,
}

impl<T: HashOracle> View for ConsistentHashing<T> {
    type V = RingState;

    closed spec fn view(&self) -> RingState {
        RingState {
            ring: self.ring@,
            nodes: names(self.nodes@),
            virtual_nodes_count: self.virtual_nodes_count,
        }
    }
}

impl<T: HashOracle> ConsistentHashing<T> {
    /// The state is valid.
    pub open spec fn wf(&self) -> bool {
        valid::<T>(self@)
    }

    /// A ring without members in which each member will have
    /// `virtual_nodes_count` virtual nodes.
    pub fn new(virtual_nodes_count: u32) -> (ring: Self)
        ensures
            ring.wf(),
            ring@ == initial(virtual_nodes_count),
    {
        let ring = ConsistentHashing {
            ring: Ring::new(),
            nodes: Vec::new(),
            virtual_nodes_count,
            _hasher: PhantomData,
        };
        assert(ring@.nodes =~= Seq::<Seq<char>>::empty());
        ring
    }

    /// The ring store.
    pub fn ring(&self) -> (ring: &Ring)
        ensures
            ring@ == self@.ring,
    {
        &self.ring
    }

    /// The members, in the order in which they joined.
    pub fn nodes(&self) -> (nodes: &Vec<String>)
        ensures
            names(nodes@) == self@.nodes,
    {
        &self.nodes
    }

    /// How many virtual nodes each member has.
    pub fn virtual_nodes_count(&self) -> (count: u32)
        ensures
            count == self@.virtual_nodes_count,
    {
        self.virtual_nodes_count
    }

    /// Whether `node` is a member.
    pub fn contains_node(&self, node: &str) -> (found: bool)
        ensures
            found == self@.nodes.contains(node@),
    {
        self.index_of_node(node).is_some()
    }

    /// Where `node` stands among the members.
    fn index_of_node(&self, node: &str) -> (found: Option<usize>)
        ensures
            found matches Some(k) ==> k < self@.nodes.len() && self@.nodes[k as int] == node@,
            found is None ==> !self@.nodes.contains(node@),
    {
        let name = node.to_owned();
        let mut k: usize = 0;
        while k < self.nodes.len()
            invariant
                k <= self.nodes@.len(),
                name@ == node@,
                forall|j: int| 0 <= j < k ==> self@.nodes[j] != node@,
            decreases self.nodes@.len() - k,
        {
            if self.nodes[k] == name {
                return Some(k);
            }
            k += 1;
        }
        None
    }

    /// The label of the `i`-th virtual node of `node`.
    pub fn get_virtual_node_form(&self, node: &str, i: u32) -> (label: String)
        ensures
            label@ == virtual_label(node@, i),
    {
        virtual_node_form(node, i)
    }

    /// The digest of `item` under the oracle.
    pub fn hash(&self, item: &str) -> (h: u64)
        requires
            T::accepts(item@),
        ensures
            h == T::digest(item@),
    {
        T::hash(item)
    }

    /// The entries of the ring by ascending position.
    pub fn get_current_state(&self) -> (state: Vec<(u64, String)>)
        ensures
            state@.len() == self@.ring.len(),
            forall|i: int|
                0 <= i < state@.len() ==> ((#[trigger] state@[i]).0, state@[i].1@)
                    == self@.ring[i],
    {
        let mut state: Vec<(u64, String)> = Vec::new();
        let mut i: usize = 0;
        while i < self.ring.len()
            invariant
                i <= self.ring@.len(),
                state@.len() == i,
                forall|j: int|
                    0 <= j < i ==> ((#[trigger] state@[j]).0, state@[j].1@) == self.ring@[j],
            decreases self.ring@.len() - i,
        {
            let e = self.ring.entry(i);
            state.push((e.0, e.1.clone()));
            i += 1;
        }
        state
    }

    /// The entry before the position of the label `node`.
    pub fn get_previous_node(&self, node: &str) -> (found: Option<(u64, &String)>)
        requires
            self.wf(),
            T::accepts(node@),
        ensures
            found is None <==> self@.ring.len() == 0,
            found matches Some(e) ==> (e.0, e.1@) == self@.ring[predecessor(
                self@.ring,
                T::digest(node@),
            )],
    {
        let hashed_value = self.hash(node);
        self.ring.predecessor(hashed_value)
    }

    /// The entry before `hash` on the circle.
    pub fn get_previous_node_by_hash(&self, hash: u64) -> (found: Option<(u64, &String)>)
        requires
            self.wf(),
        ensures
            found is None <==> self@.ring.len() == 0,
            found matches Some(e) ==> {
                &&& 0 <= predecessor(self@.ring, hash) < self@.ring.len()
                &&& (e.0, e.1@) == self@.ring[predecessor(self@.ring, hash)]
            },
    {
        self.ring.predecessor(hash)
    }

    /// The entry after the position of the label `node`.
    pub fn get_next_node(&self, node: &str) -> (found: Option<(u64, &String)>)
        requires
            self.wf(),
            T::accepts(node@),
        ensures
            found is None <==> self@.ring.len() == 0,
            found matches Some(e) ==> (e.0, e.1@) == self@.ring[successor(
                self@.ring,
                T::digest(node@),
            )],
    {
        let hashed_value = self.hash(node);
        self.ring.successor(hashed_value)
    }

    /// The entry after `hash` on the circle.
    pub fn get_next_node_by_hash(&self, hash: u64) -> (found: Option<(u64, &String)>)
        requires
            self.wf(),
        ensures
            found is None <==> self@.ring.len() == 0,
            found matches Some(e) ==> {
                &&& 0 <= successor(self@.ring, hash) < self@.ring.len()
                &&& (e.0, e.1@) == self@.ring[successor(self@.ring, hash)]
            },
    {
        self.ring.successor(hash)
    }

    /// Walks against the order from the entry before `position` to the first
    /// entry that `name` does not own, once round the ring at most, and marks
    /// the positions it leaves behind as seen.
    fn walk_to_predecessor<'a>(
        &'a self,
        name: &String,
        position: u64,
        seen: &mut HashSet<u64>,
    ) -> (reached: (u64, &'a String))
        requires
            self.wf(),
            self@.ring.len() > 0,
        ensures
            0 <= block_predecessor(self@.ring, name@, position) < self@.ring.len(),
            (reached.0, reached.1@) == self@.ring[block_predecessor(
                self@.ring,
                name@,
                position,
            )],
            final(seen)@ == old(seen)@.union(
                passed_back(
                    self@.ring,
                    name@,
                    predecessor(self@.ring, position),
                    self@.ring.len(),
                ),
            ),
    {
        let n = self.ring.len();
        let mut prev = self.get_previous_node_by_hash(position).unwrap();
        let mut own = *prev.1 == *name;
        let mut steps: usize = 0;
        let ghost s = self@.ring;
        let ghost start = predecessor(s, position);
        let ghost mut at = start;
        while steps < n && own
            invariant
                self.wf(),
                s == self@.ring,
                n == s.len(),
                steps <= n,
                0 <= at < n,
                (prev.0, prev.1@) == s[at],
                own == (s[at].1 == name@),
                walk_back(s, name@, at, (n - steps) as nat) == walk_back(s, name@, start, n as nat),
                seen@.union(passed_back(s, name@, at, (n - steps) as nat)) == old(seen)@.union(
                    passed_back(s, name@, start, n as nat),
                ),
            decreases n - steps,
        {
            let ghost before = seen@;
            seen.insert(prev.0);
            prev = self.get_previous_node_by_hash(prev.0).unwrap();
            own = *prev.1 == *name;
            proof {
                let next = predecessor(s, s[at].0);
                assert(seen@.union(passed_back(s, name@, next, (n - steps - 1) as nat))
                    =~= before.union(passed_back(s, name@, at, (n - steps) as nat)));
                at = next;
            }
            steps += 1;
        }
        proof {
            assert(seen@.union(passed_back(s, name@, at, (n - steps) as nat)) =~= seen@);
        }
        prev
    }

    /// Walks with the order from the entry after `position` to the first
    /// entry that `name` does not own, once round the ring at most, and marks
    /// the positions it leaves behind as seen.
    fn walk_to_successor<'a>(
        &'a self,
        name: &String,
        position: u64,
        seen: &mut HashSet<u64>,
    ) -> (reached: (u64, &'a String))
        requires
            self.wf(),
            self@.ring.len() > 0,
        ensures
            0 <= block_successor(self@.ring, name@, position) < self@.ring.len(),
            (reached.0, reached.1@) == self@.ring[block_successor(self@.ring, name@, position)],
            final(seen)@ == old(seen)@.union(
                passed_forward(
                    self@.ring,
                    name@,
                    successor(self@.ring, position),
                    self@.ring.len(),
                ),
            ),
    {
        let n = self.ring.len();
        let mut next = self.get_next_node_by_hash(position).unwrap();
        let mut own = *next.1 == *name;
        let mut steps: usize = 0;
        let ghost s = self@.ring;
        let ghost start = successor(s, position);
        let ghost mut at = start;
        while steps < n && own
            invariant
                self.wf(),
                s == self@.ring,
                n == s.len(),
                steps <= n,
                0 <= at < n,
                (next.0, next.1@) == s[at],
                own == (s[at].1 == name@),
                walk_forward(s, name@, at, (n - steps) as nat) == walk_forward(
                    s,
                    name@,
                    start,
                    n as nat,
                ),
                seen@.union(passed_forward(s, name@, at, (n - steps) as nat)) == old(seen)@.union(
                    passed_forward(s, name@, start, n as nat),
                ),
            decreases n - steps,
        {
            let ghost before = seen@;
            seen.insert(next.0);
            next = self.get_next_node_by_hash(next.0).unwrap();
            own = *next.1 == *name;
            proof {
                let after = successor(s, s[at].0);
                assert(seen@.union(passed_forward(s, name@, after, (n - steps - 1) as nat))
                    =~= before.union(passed_forward(s, name@, at, (n - steps) as nat)));
                at = after;
            }
            steps += 1;
        }
        proof {
            assert(seen@.union(passed_forward(s, name@, at, (n - steps) as nat)) =~= seen@);
        }
        next
    }

    /// The transfers for the virtual nodes of `node` on the ring as it is,
    /// one for each block of its positions.
    fn block_transfers(&self, node: &str, joining: bool) -> (transactions: Vec<Transaction>)
        requires
            self.wf(),
            self@.ring.len() > 0,
            labels_accepted::<T>(node@, 0, self@.virtual_nodes_count),
        ensures
            views(transactions@) == sweep::<T>(
                self@.ring,
                node@,
                self@.virtual_nodes_count as nat,
                joining,
            ).0,
    {
        let name = node.to_owned();
        let mut transactions: Vec<Transaction> = Vec::new();
        let mut seen_v_node: HashSet<u64> = HashSet::new();
        let mut i: u32 = 0;
        assert(views(transactions@) =~= Seq::empty());
        while i < self.virtual_nodes_count
            invariant
                self.wf(),
                self@.ring.len() > 0,
                name@ == node@,
                labels_accepted::<T>(node@, 0, self@.virtual_nodes_count),
                i <= self.virtual_nodes_count,
                self.virtual_nodes_count == self@.virtual_nodes_count,
                (views(transactions@), seen_v_node@) == sweep::<T>(
                    self@.ring,
                    node@,
                    i as nat,
                    joining,
                ),
            decreases self.virtual_nodes_count - i,
        {
            let v_node = self.get_virtual_node_form(node, i);
            let hash = self.hash(v_node.as_str());
            if !seen_v_node.contains(&hash) {
                let ghost before = seen_v_node@;
                let ghost listed = views(transactions@);
                seen_v_node.insert(hash);
                let prev_node = self.walk_to_predecessor(&name, hash, &mut seen_v_node);
                let next_node = self.walk_to_successor(&name, hash, &mut seen_v_node);
                let final_virtual_node = self.get_previous_node_by_hash(next_node.0).unwrap();
                let new_transaction = if joining {
                    Transaction::new(
                        next_node.1.clone(),
                        node.to_owned(),
                        prev_node.0,
                        final_virtual_node.0,
                    )
                } else {
                    Transaction::new(
                        node.to_owned(),
                        next_node.1.clone(),
                        prev_node.0,
                        final_virtual_node.0,
                    )
                };
                transactions.push(new_transaction);
                proof {
                    assert(new_transaction@ == block_transfer(self@.ring, node@, hash, joining));
                    assert(views(transactions@) =~= listed.push(new_transaction@));
                    assert(seen_v_node@ =~= before.union(
                        block_positions(self@.ring, node@, hash),
                    ));
                }
            }
            i += 1;
        }
        transactions
    }

    /// Registers `node` and stores its virtual nodes, by ascending index.
    /// Returns the labels with their positions.
    pub(crate) fn plant(&mut self, node: &str) -> (hashes: Vec<(String, u64)>)
        requires
            old(self).wf(),
            !old(self)@.nodes.contains(node@),
            old(self)@.virtual_nodes_count > 0,
            labels_accepted::<T>(node@, 0, old(self)@.virtual_nodes_count),
        ensures
            final(self).wf(),
            final(self)@ == joined::<T>(old(self)@, node@),
            final(self)@.ring.len() > 0,
            hashes@.len() == old(self)@.virtual_nodes_count,
            forall|i: int|
                0 <= i < hashes@.len() ==> (#[trigger] hashes@[i]).0@ == virtual_label(
                    node@,
                    i as u32,
                ) && hashes@[i].1 == label_position::<T>(node@, i as u32),
    {
        let mut hashes: Vec<(String, u64)> = Vec::new();
        self.nodes.push(node.to_owned());
        assert(self@.nodes =~= old(self)@.nodes.push(node@));
        proof {
            lemma_pushed_member::<T>(old(self)@, node@);
        }

        let mut i: u32 = 0;
        while i < self.virtual_nodes_count
            invariant
                i <= self.virtual_nodes_count,
                self.virtual_nodes_count == old(self)@.virtual_nodes_count,
                self@.nodes == old(self)@.nodes.push(node@),
                labels_accepted::<T>(node@, 0, self.virtual_nodes_count),
                self.ring.wf(),
                self@.ring == planted::<T>(old(self)@.ring, node@, i as nat),
                entries_owned::<T>(self@.ring, self@.nodes, self.virtual_nodes_count),
                i > 0 ==> self@.ring.len() > 0,
                hashes@.len() == i,
                forall|k: int|
                    0 <= k < i ==> (#[trigger] hashes@[k]).0@ == virtual_label(node@, k as u32)
                        && hashes@[k].1 == label_position::<T>(node@, k as u32),
            decreases self.virtual_nodes_count - i,
        {
            let v_node = self.get_virtual_node_form(node, i);
            let hash = self.hash(v_node.as_str());
            proof {
                assert(self@.nodes.last() == node@);
                lemma_with_entry(self@.ring, hash, node@);
                lemma_planted_owned::<T>(
                    self@.ring,
                    self@.nodes,
                    self.virtual_nodes_count,
                    node@,
                    i,
                );
            }
            self.ring.insert(hash, node.to_owned());
            hashes.push((v_node, hash));
            i += 1;
        }

        hashes
    }

    /// Lets `node` join: registers it and stores its virtual nodes. Returns
    /// the labels with their positions, and the transfers that the new entries
    /// ask for.
    pub fn add_node(&mut self, node: &str) -> (result: Result<
        (Vec<(String, u64)>, Vec<Transaction>),
        ConsistentHashingError,
    >)
        requires
            old(self).wf(),
            labels_accepted::<T>(node@, 0, old(self)@.virtual_nodes_count),
        ensures
            final(self).wf(),
            old(self)@.nodes.contains(node@) ==> {
                &&& result matches Err(ConsistentHashingError::NodeAlreadyExists(_))
                &&& final(self)@ == old(self)@
            },
            !old(self)@.nodes.contains(node@) && old(self)@.virtual_nodes_count == 0 ==> {
                &&& result matches Err(ConsistentHashingError::ZeroVirtualNodes(_))
                &&& final(self)@ == old(self)@
            },
            !old(self)@.nodes.contains(node@) && old(self)@.virtual_nodes_count > 0 ==> {
                &&& final(self)@ == joined::<T>(old(self)@, node@)
                &&& result matches Ok(created) && {
                    &&& created.0@.len() == old(self)@.virtual_nodes_count
                    &&& forall|i: int|
                        0 <= i < created.0@.len() ==> (#[trigger] created.0@[i]).0@
                            == virtual_label(node@, i as u32) && created.0@[i].1
                            == label_position::<T>(node@, i as u32)
                    &&& views(created.1@) == joining_transfers::<T>(old(self)@, node@)
                    &&& created.1@.len() <= old(self)@.virtual_nodes_count
                    &&& old(self)@.nodes.len() == 0 ==> created.1@.len() == 0
                    &&& forall|i: int|
                        0 <= i < created.1@.len() ==> (#[trigger] created.1@[i])@.destination
                            == node@
                }
            },
    {
        proof {
            law_joining_transfers::<T>(old(self)@, node@);
        }
        if self.contains_node(node) {
            return Err(
                ConsistentHashingError::NodeAlreadyExists("This node already exist".to_string()),
            );
        }
        if self.virtual_nodes_count == 0 {
            return Err(
                ConsistentHashingError::ZeroVirtualNodes(
                    "Cannot add node with zero virtual nodes".to_string(),
                ),
            );
        }
        let first = self.nodes.len() == 0;
        let hashes = self.plant(node);
        let transactions = if first {
            Vec::new()
        } else {
            self.block_transfers(node, true)
        };
        assert(first ==> views(transactions@) =~= Seq::empty());
        proof {
            lemma_views_ends(transactions@, node@, true);
        }
        Ok((hashes, transactions))
    }

    /// Lets the member `node` leave. The transfers are taken on the ring as
    /// it is before the node's positions go.
    pub fn remove_node(&mut self, node: &str) -> (result: Result<
        Vec<Transaction>,
        ConsistentHashingError,
    >)
        requires
            old(self).wf(),
        ensures
            final(self).wf(),
            !old(self)@.nodes.contains(node@) ==> {
                &&& result matches Err(ConsistentHashingError::NodeDoesNotExist(_))
                &&& final(self)@ == old(self)@
            },
            old(self)@.nodes.contains(node@) ==> {
                &&& final(self)@ == left::<T>(old(self)@, node@)
                &&& result matches Ok(transactions) && {
                    &&& views(transactions@) == leaving_transfers::<T>(old(self)@, node@)
                    &&& transactions@.len() <= old(self)@.virtual_nodes_count
                    &&& forall|i: int|
                        0 <= i < transactions@.len() ==> (#[trigger] transactions@[i])@.source
                            == node@
                }
            },
    {
        proof {
            law_leaving_transfers::<T>(old(self)@, node@);
        }
        let k = match self.index_of_node(node) {
            Some(k) => k,
            None => {
                return Err(
                    ConsistentHashingError::NodeDoesNotExist(
                        "This node doesn't exist".to_string(),
                    ),
                );
            },
        };
        assert(labels_accepted::<T>(node@, 0, self@.virtual_nodes_count)) by {
            assert(self@.nodes[k as int] == node@);
        }
        let transactions = if self.ring.is_empty() {
            Vec::new()
        } else {
            self.block_transfers(node, false)
        };
        assert(self@.ring.len() == 0 ==> views(transactions@) =~= Seq::empty());

        self.nodes.remove(k);
        proof {
            lemma_removed_member::<T>(old(self)@, k as int);
            assert(self@.nodes =~= old(self)@.nodes.remove(k as int));
        }

        let mut i: u32 = 0;
        while i < self.virtual_nodes_count
            invariant
                i <= self.virtual_nodes_count,
                self.virtual_nodes_count == old(self)@.virtual_nodes_count,
                k < old(self)@.nodes.len(),
                self@.nodes == old(self)@.nodes.remove(k as int),
                labels_accepted::<T>(node@, 0, self.virtual_nodes_count),
                self.ring.wf(),
                self@.ring == uprooted::<T>(old(self)@.ring, node@, i as nat),
            decreases self.virtual_nodes_count - i,
        {
            let v_node = self.get_virtual_node_form(node, i);
            let hash = self.hash(v_node.as_str());
            self.ring.remove(hash);
            i += 1;
        }
        proof {
            lemma_uprooted::<T>(old(self)@, k as int);
            lemma_views_ends(transactions@, node@, false);
        }
        Ok(transactions)
    }

    /// Gives the member at `member` the virtual nodes from the present count
    /// up to `count`, by ascending index.
    fn grow_member(&mut self, member: usize, count: u32, transactions: &mut Vec<Transaction>)
        requires
            member < old(self)@.nodes.len(),
            old(self).ring.wf(),
            old(self)@.virtual_nodes_count <= count,
            labels_accepted::<T>(
                old(self)@.nodes[member as int],
                old(self)@.virtual_nodes_count,
                count,
            ),
        ensures
            final(self).ring.wf(),
            final(self)@.nodes == old(self)@.nodes,
            final(self)@.virtual_nodes_count == old(self)@.virtual_nodes_count,
            final(self)@.ring == grow_member::<T>(
                old(self)@.ring,
                old(self)@.nodes[member as int],
                old(self)@.virtual_nodes_count as nat,
                count as nat,
            ).0,
            views(final(transactions)@) == views(old(transactions)@) + grow_member::<T>(
                old(self)@.ring,
                old(self)@.nodes[member as int],
                old(self)@.virtual_nodes_count as nat,
                count as nat,
            ).1,
    {
        let ghost node = self@.nodes[member as int];
        let ghost from = self@.virtual_nodes_count as nat;
        let mut i: u32 = self.virtual_nodes_count;
        assert(views(transactions@) =~= views(old(transactions)@) + Seq::empty());
        while i < count
            invariant
                member < self.nodes@.len(),
                self.nodes@[member as int]@ == node,
                self@.nodes == old(self)@.nodes,
                self.virtual_nodes_count == old(self)@.virtual_nodes_count,
                from == self.virtual_nodes_count,
                from <= i <= count,
                labels_accepted::<T>(node, self.virtual_nodes_count, count),
                self.ring.wf(),
                self@.ring == grow_member::<T>(old(self)@.ring, node, from, i as nat).0,
                views(transactions@) == views(old(transactions)@) + grow_member::<T>(
                    old(self)@.ring,
                    node,
                    from,
                    i as nat,
                ).1,
            decreases count - i,
        {
            let v_node = virtual_node_form(self.nodes[member].as_str(), i);
            let hash = T::hash(v_node.as_str());
            let ghost listed = views(transactions@);
            proof {
                lemma_with_entry(self@.ring, hash, node);
            }
            self.ring.insert(hash, self.nodes[member].clone());
            let prev = self.ring.predecessor(hash).unwrap();
            let next = self.ring.successor(hash).unwrap();
            if *next.1 != self.nodes[member] {
                let transaction = Transaction::new(
                    next.1.clone(),
                    self.nodes[member].clone(),
                    prev.0,
                    hash,
                );
                transactions.push(transaction);
                assert(views(transactions@) =~= listed + seq![transaction@]);
            } else {
                assert(views(transactions@) =~= listed + Seq::empty());
            }
            proof {
                let step = grow_step::<T>(
                    grow_member::<T>(old(self)@.ring, node, from, i as nat).0,
                    node,
                    i,
                );
                assert(views(transactions@) =~= views(old(transactions)@) + (grow_member::<T>(
                    old(self)@.ring,
                    node,
                    from,
                    i as nat,
                ).1 + step.1));
            }
            i += 1;
        }
    }

    /// Takes from the member at `member` the virtual nodes from the present
    /// count down to `count`, by descending index.
    fn shrink_member(&mut self, member: usize, count: u32, transactions: &mut Vec<Transaction>)
        requires
            member < old(self)@.nodes.len(),
            old(self).ring.wf(),
            count <= old(self)@.virtual_nodes_count,
            labels_accepted::<T>(
                old(self)@.nodes[member as int],
                0,
                old(self)@.virtual_nodes_count,
            ),
        ensures
            final(self).ring.wf(),
            final(self)@.nodes == old(self)@.nodes,
            final(self)@.virtual_nodes_count == old(self)@.virtual_nodes_count,
            final(self)@.ring == shrink_member::<T>(
                old(self)@.ring,
                old(self)@.nodes[member as int],
                count as nat,
                old(self)@.virtual_nodes_count as nat,
            ).0,
            views(final(transactions)@) == views(old(transactions)@) + shrink_member::<T>(
                old(self)@.ring,
                old(self)@.nodes[member as int],
                count as nat,
                old(self)@.virtual_nodes_count as nat,
            ).1,
    {
        let ghost node = self@.nodes[member as int];
        let ghost to = self@.virtual_nodes_count as nat;
        let mut i: u32 = self.virtual_nodes_count;
        assert(views(transactions@) =~= views(old(transactions)@) + Seq::empty());
        while i > count
            invariant
                member < self.nodes@.len(),
                self.nodes@[member as int]@ == node,
                self@.nodes == old(self)@.nodes,
                self.virtual_nodes_count == old(self)@.virtual_nodes_count,
                to == self.virtual_nodes_count,
                count <= i <= to,
                labels_accepted::<T>(node, 0, self.virtual_nodes_count),
                self.ring.wf(),
                self@.ring == shrink_member::<T>(old(self)@.ring, node, i as nat, to).0,
                views(transactions@) == views(old(transactions)@) + shrink_member::<T>(
                    old(self)@.ring,
                    node,
                    i as nat,
                    to,
                ).1,
            decreases i - count,
        {
            i -= 1;
            let v_node = virtual_node_form(self.nodes[member].as_str(), i);
            let hash = T::hash(v_node.as_str());
            let ghost listed = views(transactions@);
            let ghost ring = self@.ring;
            if !self.ring.is_empty() {
                let prev = self.ring.predecessor(hash).unwrap();
                let next = self.ring.successor(hash).unwrap();
                if *next.1 != self.nodes[member] {
                    let transaction = Transaction::new(
                        self.nodes[member].clone(),
                        next.1.clone(),
                        prev.0,
                        hash,
                    );
                    transactions.push(transaction);
                }
            }
            self.ring.remove(hash);
            proof {
                let step = shrink_step::<T>(ring, node, i);
                assert(views(transactions@) =~= listed + step.1);
                assert(views(transactions@) =~= views(old(transactions)@) + (shrink_member::<T>(
                    old(self)@.ring,
                    node,
                    (i + 1) as nat,
                    to,
                ).1 + step.1));
            }
        }
    }

    /// Changes the number of virtual nodes of every member to `count`.
    pub fn set_virtual_nodes_count(&mut self, count: u32) -> (result: Result<
        Vec<Transaction>,
        ConsistentHashingError,
    >)
        requires
            old(self).wf(),
            new_labels_accepted::<T>(old(self)@, count),
        ensures
            final(self).wf(),
            count == 0 ==> {
                &&& result matches Err(ConsistentHashingError::ZeroVirtualNodes(_))
                &&& final(self)@ == old(self)@
            },
            count != 0 && count == old(self)@.virtual_nodes_count ==> {
                &&& result matches Err(ConsistentHashingError::UnchangedVirtualNodeCount(_))
                &&& final(self)@ == old(self)@
            },
            count != 0 && count != old(self)@.virtual_nodes_count ==> {
                &&& final(self)@ == resized::<T>(old(self)@, count)
                &&& result matches Ok(transactions) && {
                    &&& views(transactions@) == resize::<T>(old(self)@, count).1
                    &&& count > old(self)@.virtual_nodes_count ==> transactions@.len()
                        <= old(self)@.nodes.len() * (count - old(self)@.virtual_nodes_count)
                    &&& count < old(self)@.virtual_nodes_count ==> transactions@.len()
                        <= old(self)@.nodes.len() * (old(self)@.virtual_nodes_count - count)
                }
            },
    {
        if count == 0 {
            return Err(
                ConsistentHashingError::ZeroVirtualNodes(
                    "Cannot set virtual nodes count to 0".to_string(),
                ),
            );
        }
        if count == self.virtual_nodes_count {
            return Err(
                ConsistentHashingError::UnchangedVirtualNodeCount(
                    "New virtual nodes count is same as current".to_string(),
                ),
            );
        }
        let mut transactions: Vec<Transaction> = Vec::new();
        let ghost from = self@.virtual_nodes_count as nat;
        let growing = count > self.virtual_nodes_count;
        let mut member: usize = 0;
        assert(views(transactions@) =~= Seq::empty());
        while member < self.nodes.len()
            invariant
                member <= self.nodes@.len(),
                self@.nodes == old(self)@.nodes,
                self.virtual_nodes_count == old(self)@.virtual_nodes_count,
                from == self.virtual_nodes_count,
                growing == (count > self.virtual_nodes_count),
                count != self.virtual_nodes_count,
                valid::<T>(old(self)@),
                new_labels_accepted::<T>(old(self)@, count),
                self.ring.wf(),
                growing ==> (self@.ring, views(transactions@)) == grow::<T>(
                    old(self)@.ring,
                    old(self)@.nodes,
                    member as nat,
                    from,
                    count as nat,
                ),
                !growing ==> (self@.ring, views(transactions@)) == shrink::<T>(
                    old(self)@.ring,
                    old(self)@.nodes,
                    member as nat,
                    count as nat,
                    from,
                ),
            decreases self.nodes@.len() - member,
        {
            let ghost listed = views(transactions@);
            assert(labels_accepted::<T>(self@.nodes[member as int], 0, self.virtual_nodes_count));
            assert(labels_accepted::<T>(
                self@.nodes[member as int],
                self.virtual_nodes_count,
                count,
            ));
            if growing {
                self.grow_member(member, count, &mut transactions);
            } else {
                self.shrink_member(member, count, &mut transactions);
            }
            member += 1;
        }
        self.virtual_nodes_count = count;
        proof {
            lemma_resized::<T>(old(self)@, count);
        }
        Ok(transactions)
    }

    /// A ring in which `nodes` have joined, one after the other. It fails as
    /// the first joining that fails does.
    pub fn new_with_nodes(virtual_nodes_count: u32, nodes: Vec<String>) -> (result: Result<
        Self,
        ConsistentHashingError,
    >)
        requires
            forall|k: int|
                0 <= k < nodes@.len() ==> labels_accepted::<T>(
                    (#[trigger] nodes@[k])@,
                    0,
                    virtual_nodes_count,
                ),
        ensures
            virtual_nodes_count == 0 && nodes@.len() > 0 ==> result matches Err(
                ConsistentHashingError::ZeroVirtualNodes(_),
            ),
            virtual_nodes_count > 0 && !names(nodes@).no_duplicates() ==> result matches Err(
                ConsistentHashingError::NodeAlreadyExists(_),
            ),
            (virtual_nodes_count > 0 || nodes@.len() == 0) && names(nodes@).no_duplicates() ==> {
                &&& result matches Ok(ring) && ring.wf() && ring@ == joined_all::<T>(
                    initial(virtual_nodes_count),
                    names(nodes@),
                    nodes@.len(),
                )
            },
    {
        let mut consistent_hashing = ConsistentHashing::new(virtual_nodes_count);
        let mut k: usize = 0;
        while k < nodes.len()
            invariant
                k <= nodes@.len(),
                virtual_nodes_count > 0 || k == 0,
                consistent_hashing.wf(),
                consistent_hashing@ == joined_all::<T>(
                    initial(virtual_nodes_count),
                    names(nodes@),
                    k as nat,
                ),
                consistent_hashing@.virtual_nodes_count == virtual_nodes_count,
                consistent_hashing@.nodes == names(nodes@).subrange(0, k as int),
                names(nodes@).subrange(0, k as int).no_duplicates(),
                forall|j: int|
                    0 <= j < nodes@.len() ==> labels_accepted::<T>(
                        (#[trigger] nodes@[j])@,
                        0,
                        virtual_nodes_count,
                    ),
            decreases nodes@.len() - k,
        {
            let ghost listed = names(nodes@).subrange(0, k as int);
            let ghost name = nodes@[k as int]@;
            assert(names(nodes@)[k as int] == name);
            assert(names(nodes@).subrange(0, k + 1) =~= listed.push(name));
            match consistent_hashing.add_node(nodes[k].as_str()) {
                Ok(_) => {
                    assert forall|i: int, j: int| 0 <= i < j < k + 1 implies listed.push(name)[i]
                        != listed.push(name)[j] by {
                        if j == k {
                            assert(listed.contains(listed[i]));
                        } else {
                            assert(listed[i] != listed[j]);
                        }
                    }
                },
                Err(e) => {
                    proof {
                        if virtual_nodes_count > 0 {
                            assert(listed.contains(name));
                            let i = choose|i: int| 0 <= i < listed.len() && listed[i] == name;
                            assert(names(nodes@)[i] == names(nodes@)[k as int]);
                        }
                    }
                    return Err(e);
                },
            }
            k += 1;
        }
        assert(names(nodes@).subrange(0, k as int) =~= names(nodes@));
        Ok(consistent_hashing)
    }

    /// The owner of `hash`: the node at the first position that is not less
    /// than `hash`, or at the smallest position where there is none.
    pub fn get_node_by_hash(&self, hash: u64) -> (owner: Option<&String>)
        requires
            self.wf(),
        ensures
            owner is None <==> self@.ring.len() == 0,
            owner matches Some(node) ==> {
                &&& lookup(self@.ring, hash) == Some(node@)
                &&& self@.nodes.contains(node@)
            },
    {
        match self.ring.successor_or_equal(hash) {
            Some(e) => Some(e.1),
            None => None,
        }
    }

    /// The owner of `key`; none while the ring has no entries.
    pub fn get_node(&self, key: &str) -> (owner: Option<&String>)
        requires
            self.wf(),
            self@.ring.len() > 0 ==> T::accepts(key@),
        ensures
            owner is None <==> self@.ring.len() == 0,
            owner matches Some(node) ==> {
                &&& lookup(self@.ring, T::digest(key@)) == Some(node@)
                &&& self@.nodes.contains(node@)
            },
    {
        if self.ring.is_empty() {
            return None;
        }
        let hash = self.hash(key);
        self.get_node_by_hash(hash)
    }
}

/// The names of a list of nodes.
pub open spec fn names(nodes: Seq<String>) -> Seq<Seq<char>> {
    Seq::new(nodes.len(), |i: int| nodes[i]@)
}

} // verus!
