use vstd::prelude::*;

verus! {

/// The ring as a mathematical value: its entries, each a position with the
/// name of the node that owns it, by ascending position.
pub type Entries = Seq<(u64, Seq<char>)>;

/// Positions ascend strictly, so no position occurs twice.
pub open spec fn ordered(s: Entries) -> bool {
    forall|i: int, j: int| 0 <= i < j < s.len() ==> s[i].0 < s[j].0
}

/// The number of entries whose position lies below `bound`.
pub open spec fn below(s: Entries, bound: int) -> int
    decreases s.len(),
{
    if s.len() == 0 {
        0
    } else {
        below(s.drop_last(), bound) + if s.last().0 < bound {
            1int
        } else {
            0int
        }
    }
}

/// Whether `position` is stored.
pub open spec fn holds(s: Entries, position: u64) -> bool {
    exists|i: int| 0 <= i < s.len() && #[trigger] s[i].0 == position
}

/// The owner of `position`, if it is stored.
pub open spec fn owner_at(s: Entries, position: u64) -> Option<Seq<char>> {
    let r = below(s, position as int);
    if 0 <= r < s.len() && s[r].0 == position {
        Some(s[r].1)
    } else {
        None
    }
}

/// The index of the entry that comes after `position` on the circle: the
/// smallest stored position strictly greater than `position`, or, if there is
/// none, the smallest stored position of all.
pub open spec fn successor(s: Entries, position: u64) -> int {
    let r = below(s, position + 1);
    if r < s.len() {
        r
    } else {
        0
    }
}

/// The index of the entry that comes before `position` on the circle: the
/// largest stored position strictly less than `position`, or, if there is
/// none, the largest stored position of all.
pub open spec fn predecessor(s: Entries, position: u64) -> int {
    let r = below(s, position as int);
    if r > 0 {
        r - 1
    } else {
        s.len() - 1
    }
}

/// The index of the entry that answers for `position`: the smallest stored
/// position that is not less than `position`, or, if there is none, the
/// smallest stored position of all.
pub open spec fn successor_or_equal(s: Entries, position: u64) -> int {
    let r = below(s, position as int);
    if r < s.len() {
        r
    } else {
        0
    }
}

/// The ring with `position` given to `node`: a stored position changes its
/// owner, a new one takes its place in the order.
pub open spec fn with_entry(s: Entries, position: u64, node: Seq<char>) -> Entries {
    let r = below(s, position as int);
    if r < s.len() && s[r].0 == position {
        s.update(r, (position, node))
    } else {
        s.insert(r, (position, node))
    }
}

/// The ring without `position`.
pub open spec fn without_entry(s: Entries, position: u64) -> Entries {
    let r = below(s, position as int);
    if r < s.len() && s[r].0 == position {
        s.remove(r)
    } else {
        s
    }
}

/// In an ordered ring the entries below a bound are exactly the first
/// `below(s, bound)` ones.
pub proof fn lemma_below_splits(s: Entries, bound: int)
    requires
        ordered(s),
    ensures
        0 <= below(s, bound) <= s.len(),
        forall|i: int| 0 <= i < below(s, bound) ==> (#[trigger] s[i]).0 < bound,
        forall|i: int| below(s, bound) <= i < s.len() ==> (#[trigger] s[i]).0 >= bound,
    decreases s.len(),
{
    if s.len() > 0 {
        let t = s.drop_last();
        assert(ordered(t)) by {
            assert forall|i: int, j: int| 0 <= i < j < t.len() implies t[i].0 < t[j].0 by {
                assert(t[i] == s[i] && t[j] == s[j]);
            }
        }
        lemma_below_splits(t, bound);
        assert forall|i: int| 0 <= i < below(s, bound) implies (#[trigger] s[i]).0 < bound by {
            if i < t.len() {
                if i < below(t, bound) {
                    assert(t[i] == s[i]);
                } else {
                    // then the last entry lies below the bound, and so does this one
                    assert(s.last().0 < bound);
                    assert(s[i].0 < s[s.len() - 1].0);
                }
            }
        }
        assert forall|i: int| below(s, bound) <= i < s.len() implies (#[trigger] s[i]).0
            >= bound by {
            if i < t.len() {
                assert(t[i] == s[i]);
            }
        }
    }
}

/// An index that splits an ordered ring at a bound is `below(s, bound)`.
pub proof fn lemma_below_unique(s: Entries, bound: int, r: int)
    requires
        ordered(s),
        0 <= r <= s.len(),
        forall|i: int| 0 <= i < r ==> (#[trigger] s[i]).0 < bound,
        forall|i: int| r <= i < s.len() ==> (#[trigger] s[i]).0 >= bound,
    ensures
        r == below(s, bound),
{
    lemma_below_splits(s, bound);
    let b = below(s, bound);
    if r < b {
        assert(s[r].0 < bound);
    } else if b < r {
        assert(s[b].0 < bound);
    }
}

/// Giving a position to a node keeps the order; the ring grows by one entry
/// exactly when the position was not stored.
pub proof fn lemma_with_entry(s: Entries, position: u64, node: Seq<char>)
    requires
        ordered(s),
    ensures
        ordered(with_entry(s, position, node)),
        holds(with_entry(s, position, node), position),
        with_entry(s, position, node).len() == if holds(s, position) {
            s.len()
        } else {
            s.len() + 1
        },
        with_entry(s, position, node)[below(s, position as int)] == (position, node),
        below(with_entry(s, position, node), position as int) == below(s, position as int),
{
    lemma_below_splits(s, position as int);
    let r = below(s, position as int);
    let t = with_entry(s, position, node);
    if r < s.len() && s[r].0 == position {
        assert(holds(s, position));
        assert forall|i: int, j: int| 0 <= i < j < t.len() implies t[i].0 < t[j].0 by {
            assert(s[i].0 < s[j].0);
        }
    } else {
        assert(!holds(s, position)) by {
            if holds(s, position) {
                let i = choose|i: int| 0 <= i < s.len() && #[trigger] s[i].0 == position;
                if i < r {
                    assert(s[i].0 < position);
                } else if i > r {
                    assert(s[r].0 < s[i].0);
                    assert(s[r].0 >= position);
                }
            }
        }
        assert forall|i: int, j: int| 0 <= i < j < t.len() implies t[i].0 < t[j].0 by {
            if j < r {
                assert(s[i].0 < s[j].0);
            } else if j == r {
                assert(s[i].0 < position);
            } else if i < r {
                assert(s[i].0 < position);
                assert(s[j - 1].0 >= position);
                assert(s[j - 1].0 != position) by {
                    if j - 1 > r {
                        assert(s[r].0 < s[j - 1].0);
                    }
                }
            } else if i == r {
                assert(s[j - 1].0 >= position);
                if j - 1 > r {
                    assert(s[r].0 < s[j - 1].0);
                }
            } else {
                assert(s[i - 1].0 < s[j - 1].0);
            }
        }
    }
    assert(t[r].0 == position);
    assert forall|i: int| 0 <= i < r implies (#[trigger] t[i]).0 < position by {
        assert(s[i].0 < position);
    }
    assert forall|i: int| r <= i < t.len() implies (#[trigger] t[i]).0 >= position by {
        if i > r {
            assert(t[r].0 < t[i].0);
        }
    }
    lemma_below_unique(t, position as int, r);
}

/// Taking a position out keeps the order; the ring shrinks by one entry
/// exactly when the position was stored.
pub proof fn lemma_without_entry(s: Entries, position: u64)
    requires
        ordered(s),
    ensures
        ordered(without_entry(s, position)),
        !holds(without_entry(s, position), position),
        without_entry(s, position).len() == if holds(s, position) {
            s.len() - 1
        } else {
            s.len() as int
        },
        below(without_entry(s, position), position as int) == below(s, position as int),
{
    lemma_below_splits(s, position as int);
    let r = below(s, position as int);
    let t = without_entry(s, position);
    if r < s.len() && s[r].0 == position {
        assert(holds(s, position));
        assert forall|i: int, j: int| 0 <= i < j < t.len() implies t[i].0 < t[j].0 by {
            if j < r {
                assert(s[i].0 < s[j].0);
            } else if i < r {
                assert(s[i].0 < s[j + 1].0);
            } else {
                assert(s[i + 1].0 < s[j + 1].0);
            }
        }
        assert forall|i: int| 0 <= i < t.len() implies (#[trigger] t[i]).0 != position by {
            if i < r {
                assert(s[i].0 < s[r].0);
            } else {
                assert(s[r].0 < s[i + 1].0);
            }
        }
        assert forall|i: int| 0 <= i < r implies (#[trigger] t[i]).0 < position by {
            assert(s[i].0 < position);
        }
        assert forall|i: int| r <= i < t.len() implies (#[trigger] t[i]).0 >= position by {
            assert(s[i + 1].0 >= position);
        }
        lemma_below_unique(t, position as int, r);
    } else {
        assert(!holds(s, position)) by {
            if holds(s, position) {
                let i = choose|i: int| 0 <= i < s.len() && #[trigger] s[i].0 == position;
                if i < r {
                    assert(s[i].0 < position);
                } else if i > r {
                    assert(s[r].0 < s[i].0);
                    assert(s[r].0 >= position);
                }
            }
        }
    }
}

/// Every entry of the ring with `position` given to `node` is that entry or
/// an entry of the ring before.
pub proof fn lemma_with_entry_origin(s: Entries, position: u64, node: Seq<char>)
    requires
        ordered(s),
    ensures
        forall|j: int|
            0 <= j < with_entry(s, position, node).len() ==> (#[trigger] with_entry(
                s,
                position,
                node,
            )[j]) == (position, node) || s.contains(with_entry(s, position, node)[j]),
{
    lemma_below_splits(s, position as int);
    let r = below(s, position as int);
    let t = with_entry(s, position, node);
    assert forall|j: int| 0 <= j < t.len() implies (#[trigger] t[j]) == (position, node)
        || s.contains(t[j]) by {
        if j != r {
            if r < s.len() && s[r].0 == position {
                assert(t[j] == s[j]);
            } else if j < r {
                assert(t[j] == s[j]);
            } else {
                assert(t[j] == s[j - 1]);
            }
        }
    }
}

/// Every entry of the ring without `position` is an entry of the ring before,
/// at another position.
pub proof fn lemma_without_entry_origin(s: Entries, position: u64)
    requires
        ordered(s),
    ensures
        forall|j: int|
            0 <= j < without_entry(s, position).len() ==> s.contains(
                #[trigger] without_entry(s, position)[j],
            ) && without_entry(s, position)[j].0 != position,
{
    lemma_below_splits(s, position as int);
    lemma_without_entry(s, position);
    let r = below(s, position as int);
    let t = without_entry(s, position);
    assert forall|j: int| 0 <= j < t.len() implies s.contains(#[trigger] t[j]) && t[j].0
        != position by {
        if r < s.len() && s[r].0 == position {
            if j < r {
                assert(t[j] == s[j]);
            } else {
                assert(t[j] == s[j + 1]);
            }
        } else {
            assert(t[j] == s[j]);
        }
        assert(holds(t, position) || t[j].0 != position);
    }
}

/// Round the circle from a stored position: the entry before it is the one
/// just below it in the order, or the last for the first; the entry after it
/// is the one just above, or the first for the last.
pub proof fn lemma_neighbours(s: Entries, index: int)
    requires
        ordered(s),
        0 <= index < s.len(),
    ensures
        below(s, s[index].0 as int) == index,
        predecessor(s, s[index].0) == if index == 0 {
            s.len() - 1
        } else {
            index - 1
        },
        successor(s, s[index].0) == if index == s.len() - 1 {
            0
        } else {
            index + 1
        },
        successor_or_equal(s, s[index].0) == index,
{
    let position = s[index].0;
    assert forall|i: int| 0 <= i < index implies (#[trigger] s[i]).0 < position by {
        assert(s[i].0 < s[index].0);
    }
    assert forall|i: int| index <= i < s.len() implies (#[trigger] s[i]).0 >= position by {
        if i > index {
            assert(s[index].0 < s[i].0);
        }
    }
    lemma_below_unique(s, position as int, index);
    assert forall|i: int| 0 <= i < index + 1 implies (#[trigger] s[i]).0 < position + 1 by {
        if i < index {
            assert(s[i].0 < s[index].0);
        }
    }
    assert forall|i: int| index + 1 <= i < s.len() implies (#[trigger] s[i]).0 >= position
        + 1 by {
        assert(s[index].0 < s[i].0);
    }
    lemma_below_unique(s, position + 1, index + 1);
}

/// In an ordered ring a position has an owner exactly when it is stored, and
/// the owner is the node of the entry that stands there.
pub proof fn lemma_owner_at(s: Entries, position: u64)
    requires
        ordered(s),
    ensures
        holds(s, position) <==> owner_at(s, position) is Some,
        forall|node: Seq<char>|
            owner_at(s, position) == Some(node) <==> s.contains((position, node)),
{
    lemma_below_splits(s, position as int);
    let r = below(s, position as int);
    if holds(s, position) {
        let i = choose|i: int| 0 <= i < s.len() && #[trigger] s[i].0 == position;
        lemma_neighbours(s, i);
    }
    assert forall|node: Seq<char>| s.contains((position, node)) implies owner_at(s, position)
        == Some(node) by {
        let i = choose|i: int| 0 <= i < s.len() && s[i] == (position, node);
        lemma_neighbours(s, i);
    }
    assert forall|node: Seq<char>| owner_at(s, position) == Some(node) implies s.contains(
        (position, node),
    ) by {
        assert(s[r] == (position, node));
    }
}

/// The ring with `position` given to `node` is the ring before but at
/// `position`, where `node` is the owner.
pub proof fn lemma_with_entry_owner(s: Entries, position: u64, node: Seq<char>, other: u64)
    requires
        ordered(s),
    ensures
        owner_at(with_entry(s, position, node), other) == if other == position {
            Some(node)
        } else {
            owner_at(s, other)
        },
{
    let t = with_entry(s, position, node);
    let r = below(s, position as int);
    lemma_below_splits(s, position as int);
    lemma_with_entry(s, position, node);
    lemma_with_entry_origin(s, position, node);
    lemma_owner_at(s, other);
    lemma_owner_at(t, other);
    if other == position {
        assert(t[r] == (position, node));
        assert(t.contains((position, node)));
    } else {
        match owner_at(t, other) {
            Some(owner) => {
                assert(t.contains((other, owner)));
                let j = choose|j: int| 0 <= j < t.len() && t[j] == (other, owner);
                assert(s.contains(t[j]));
            },
            None => {
                if owner_at(s, other) is Some {
                    let owner = owner_at(s, other).unwrap();
                    assert(s.contains((other, owner)));
                    let k = choose|k: int| 0 <= k < s.len() && s[k] == (other, owner);
                    if r < s.len() && s[r].0 == position {
                        assert(t[k] == s[k]);
                    } else if k < r {
                        assert(t[k] == s[k]);
                    } else {
                        assert(t[k + 1] == s[k]);
                    }
                    assert(t.contains((other, owner)));
                }
            },
        }
    }
}

/// The ring without `position` is the ring before but at `position`, which
/// has no owner.
pub proof fn lemma_without_entry_owner(s: Entries, position: u64, other: u64)
    requires
        ordered(s),
    ensures
        owner_at(without_entry(s, position), other) == if other == position {
            None
        } else {
            owner_at(s, other)
        },
{
    let t = without_entry(s, position);
    let r = below(s, position as int);
    lemma_below_splits(s, position as int);
    lemma_without_entry(s, position);
    lemma_without_entry_origin(s, position);
    lemma_owner_at(s, other);
    lemma_owner_at(t, other);
    if other != position {
        match owner_at(t, other) {
            Some(owner) => {
                assert(t.contains((other, owner)));
                let j = choose|j: int| 0 <= j < t.len() && t[j] == (other, owner);
                assert(s.contains(t[j]));
            },
            None => {
                if owner_at(s, other) is Some {
                    let owner = owner_at(s, other).unwrap();
                    assert(s.contains((other, owner)));
                    let k = choose|k: int| 0 <= k < s.len() && s[k] == (other, owner);
                    if r < s.len() && s[r].0 == position {
                        if k < r {
                            assert(t[k] == s[k]);
                        } else {
                            assert(t[k - 1] == s[k]);
                        }
                    } else {
                        assert(t[k] == s[k]);
                    }
                    assert(t.contains((other, owner)));
                }
            },
        }
    }
}

/// Two ordered rings in which every position has the same owner are the
/// same ring.
pub proof fn lemma_same_owners(a: Entries, b: Entries)
    requires
        ordered(a),
        ordered(b),
        forall|position: u64| owner_at(a, position) == owner_at(b, position),
    ensures
        a == b,
    decreases a.len(),
{
    if a.len() == 0 {
        if b.len() > 0 {
            lemma_owner_at(b, b[0].0);
            lemma_owner_at(a, b[0].0);
            assert(holds(b, b[0].0));
        }
        assert(a =~= b);
    } else {
        let last = a.last();
        lemma_owner_at(a, last.0);
        lemma_owner_at(b, last.0);
        assert(a.contains(last));
        assert(owner_at(a, last.0) == Some(last.1));
        assert(b.contains(last));
        let k = choose|k: int| 0 <= k < b.len() && b[k] == last;
        if k < b.len() - 1 {
            let top = b.last();
            lemma_owner_at(b, top.0);
            lemma_owner_at(a, top.0);
            assert(b.contains(top));
            assert(owner_at(b, top.0) == Some(top.1));
            assert(a.contains(top));
            let j = choose|j: int| 0 <= j < a.len() && a[j] == top;
            assert(b[k].0 < b[b.len() - 1].0);
            if j < a.len() - 1 {
                assert(a[j].0 < a[a.len() - 1].0);
            }
        }
        let a0 = a.drop_last();
        let b0 = b.drop_last();
        assert(ordered(a0)) by {
            assert forall|i: int, j: int| 0 <= i < j < a0.len() implies a0[i].0 < a0[j].0 by {
                assert(a[i].0 < a[j].0);
            }
        }
        assert(ordered(b0)) by {
            assert forall|i: int, j: int| 0 <= i < j < b0.len() implies b0[i].0 < b0[j].0 by {
                assert(b[i].0 < b[j].0);
            }
        }
        assert(a0 =~= without_entry(a, last.0)) by {
            lemma_neighbours(a, a.len() - 1);
        }
        assert(b0 =~= without_entry(b, last.0)) by {
            lemma_neighbours(b, b.len() - 1);
        }
        assert forall|position: u64| owner_at(a0, position) == owner_at(b0, position) by {
            lemma_without_entry_owner(a, last.0, position);
            lemma_without_entry_owner(b, last.0, position);
        }
        lemma_same_owners(a0, b0);
        assert(a =~= a0.push(last));
        assert(b =~= b0.push(last));
    }
}

/// The ring store: positions with their owners, kept by ascending position.
pub struct Ring {
    entries: Vec<(u64, String)>,
}

impl View for Ring {
    type V = Entries;

    closed spec fn view(&self) -> Entries {
        Seq::new(self.entries@.len(), |i: int| (self.entries@[i].0, self.entries@[i].1@))
    }
}

impl Ring {
    /// The entries are in order, each position once.
    pub open spec fn wf(&self) -> bool {
        ordered(self@)
    }

    /// A ring without entries.
    pub fn new() -> (ring: Self)
        ensures
            ring@ == Seq::<(u64, Seq<char>)>::empty(),
            ring.wf(),
    {
        let ring = Ring { entries: Vec::new() };
        assert(ring@ =~= Seq::<(u64, Seq<char>)>::empty());
        ring
    }

    /// The number of entries.
    pub fn len(&self) -> (n: usize)
        ensures
            n == self@.len(),
    {
        self.entries.len()
    }

    /// Whether the ring has no entries.
    pub fn is_empty(&self) -> (b: bool)
        ensures
            b == (self@.len() == 0),
    {
        self.entries.len() == 0
    }

    /// The entry at `index`, counted by ascending position.
    pub fn entry(&self, index: usize) -> (e: (u64, &String))
        requires
            index < self@.len(),
        ensures
            (e.0, e.1@) == self@[index as int],
    {
        let e = &self.entries[index];
        (e.0, &e.1)
    }

    /// The number of entries below `bound`, found by bisection.
    pub fn first_at_least(&self, bound: u64) -> (r: usize)
        requires
            self.wf(),
        ensures
            r == below(self@, bound as int),
            r <= self@.len(),
    {
        let mut lo: usize = 0;
        let mut hi: usize = self.entries.len();
        while lo < hi
            invariant
                self.wf(),
                0 <= lo <= hi <= self@.len(),
                self@.len() == self.entries@.len(),
                forall|i: int| 0 <= i < lo ==> (#[trigger] self@[i]).0 < bound,
                forall|i: int| hi <= i < self@.len() ==> (#[trigger] self@[i]).0 >= bound,
            decreases hi - lo,
        {
            let mid: usize = lo + (hi - lo) / 2;
            if self.entries[mid].0 < bound {
                assert forall|i: int| 0 <= i < mid + 1 implies (#[trigger] self@[i]).0 < bound by {
                    assert(self@[mid as int].0 < bound);
                    if i < mid {
                        assert(self@[i].0 < self@[mid as int].0);
                    }
                }
                lo = mid + 1;
            } else {
                assert forall|i: int| mid <= i < self@.len() implies (#[trigger] self@[i]).0
                    >= bound by {
                    assert(self@[mid as int].0 >= bound);
                    if mid < i {
                        assert(self@[mid as int].0 < self@[i].0);
                    }
                }
                hi = mid;
            }
        }
        proof {
            lemma_below_unique(self@, bound as int, lo as int);
        }
        lo
    }

    /// The number of entries at or below `bound`.
    pub fn first_above(&self, bound: u64) -> (r: usize)
        requires
            self.wf(),
        ensures
            r == below(self@, bound + 1),
            r <= self@.len(),
    {
        if bound == u64::MAX {
            proof {
                lemma_below_unique(self@, bound + 1, self@.len() as int);
            }
            self.entries.len()
        } else {
            self.first_at_least(bound + 1)
        }
    }

    /// The index of the entry after `position` on the circle.
    pub fn successor_index(&self, position: u64) -> (r: usize)
        requires
            self.wf(),
            self@.len() > 0,
        ensures
            r == successor(self@, position),
            r < self@.len(),
    {
        let r = self.first_above(position);
        if r < self.entries.len() {
            r
        } else {
            0
        }
    }

    /// The index of the entry before `position` on the circle.
    pub fn predecessor_index(&self, position: u64) -> (r: usize)
        requires
            self.wf(),
            self@.len() > 0,
        ensures
            r == predecessor(self@, position),
            r < self@.len(),
    {
        let r = self.first_at_least(position);
        if r > 0 {
            r - 1
        } else {
            self.entries.len() - 1
        }
    }

    /// The index of the entry that answers for `position`.
    pub fn successor_or_equal_index(&self, position: u64) -> (r: usize)
        requires
            self.wf(),
            self@.len() > 0,
        ensures
            r == successor_or_equal(self@, position),
            r < self@.len(),
    {
        let r = self.first_at_least(position);
        if r < self.entries.len() {
            r
        } else {
            0
        }
    }

    /// Gives `position` to `node`. A position that is stored already changes
    /// its owner: the last write wins.
    pub fn insert(&mut self, position: u64, node: String)
        requires
            old(self).wf(),
        ensures
            final(self).wf(),
            final(self)@ == with_entry(old(self)@, position, node@),
            forall|other: u64|
                #[trigger] owner_at(final(self)@, other) == if other == position {
                    Some(node@)
                } else {
                    owner_at(old(self)@, other)
                },
    {
        let r = self.first_at_least(position);
        proof {
            lemma_with_entry(self@, position, node@);
            assert forall|other: u64| #[trigger]
                owner_at(with_entry(self@, position, node@), other) == if other == position {
                    Some(node@)
                } else {
                    owner_at(self@, other)
                } by {
                lemma_with_entry_owner(self@, position, node@, other);
            }
        }
        if r < self.entries.len() && self.entries[r].0 == position {
            self.entries.set(r, (position, node));
        } else {
            self.entries.insert(r, (position, node));
        }
        assert(self@ =~= with_entry(old(self)@, position, node@));
    }

    /// Takes `position` out, if it is stored.
    pub fn remove(&mut self, position: u64)
        requires
            old(self).wf(),
        ensures
            final(self).wf(),
            final(self)@ == without_entry(old(self)@, position),
            forall|other: u64|
                #[trigger] owner_at(final(self)@, other) == if other == position {
                    None
                } else {
                    owner_at(old(self)@, other)
                },
    {
        let r = self.first_at_least(position);
        proof {
            lemma_without_entry(self@, position);
            assert forall|other: u64| #[trigger]
                owner_at(without_entry(self@, position), other) == if other == position {
                    None
                } else {
                    owner_at(self@, other)
                } by {
                lemma_without_entry_owner(self@, position, other);
            }
        }
        if r < self.entries.len() && self.entries[r].0 == position {
            self.entries.remove(r);
        }
        assert(self@ =~= without_entry(old(self)@, position));
    }

    /// The entry after `position` on the circle; none on an empty ring.
    pub fn successor(&self, position: u64) -> (found: Option<(u64, &String)>)
        requires
            self.wf(),
        ensures
            found is None <==> self@.len() == 0,
            found matches Some(e) ==> {
                &&& 0 <= successor(self@, position) < self@.len()
                &&& (e.0, e.1@) == self@[successor(self@, position)]
            },
    {
        if self.entries.len() == 0 {
            None
        } else {
            Some(self.entry(self.successor_index(position)))
        }
    }

    /// The entry before `position` on the circle; none on an empty ring.
    pub fn predecessor(&self, position: u64) -> (found: Option<(u64, &String)>)
        requires
            self.wf(),
        ensures
            found is None <==> self@.len() == 0,
            found matches Some(e) ==> {
                &&& 0 <= predecessor(self@, position) < self@.len()
                &&& (e.0, e.1@) == self@[predecessor(self@, position)]
            },
    {
        if self.entries.len() == 0 {
            None
        } else {
            Some(self.entry(self.predecessor_index(position)))
        }
    }

    /// The entry that answers for `position`; none on an empty ring.
    pub fn successor_or_equal(&self, position: u64) -> (found: Option<(u64, &String)>)
        requires
            self.wf(),
        ensures
            found is None <==> self@.len() == 0,
            found matches Some(e) ==> {
                &&& 0 <= successor_or_equal(self@, position) < self@.len()
                &&& (e.0, e.1@) == self@[successor_or_equal(self@, position)]
            },
    {
        if self.entries.len() == 0 {
            None
        } else {
            Some(self.entry(self.successor_or_equal_index(position)))
        }
    }
}

} // verus!
