use vstd::prelude::*;

verus! {

/// The mathematical value of a [`Transaction`]: the hash interval that lies
/// after `begining` (exclusive) and reaches up to `ending` (inclusive) passes
/// from `source` to `destination`.
pub struct TransactionView {
    pub source: Seq<char>,
    pub destination: Seq<char>,
    pub begining: u64,
    pub ending: u64,
}

/// Whether `digest` lies in the range from `begining` to `ending`: after
/// `begining` and not after `ending`, going round the circle from
/// `begining`. A range that begins where it ends is the whole circle.
pub open spec fn in_range(begining: u64, ending: u64, digest: u64) -> bool {
    if begining < ending {
        begining < digest <= ending
    } else {
        begining < digest || digest <= ending
    }
}

impl TransactionView {
    /// Whether `digest` lies in the range.
    pub open spec fn covers(self, digest: u64) -> bool {
        in_range(self.begining, self.ending, digest)
    }
}

/// A record of one hash range changing its logical owner.
#[derive(Debug, Clone)]
pub struct Transaction {
    source: String,
    destination: String,
    begining: u64,
    ending: u64,
}

impl View for Transaction {
    type V = TransactionView;

    closed spec fn view(&self) -> TransactionView {
        TransactionView {
            source: self.source@,
            destination: self.destination@,
            begining: self.begining,
            ending: self.ending,
        }
    }
}

impl Transaction {
    /// The record that the range after `begining` up to `ending` passes from
    /// `source` to `destination`.
    pub fn new(source: String, destination: String, begining: u64, ending: u64) -> (t: Self)
        ensures
            t@ == (TransactionView {
                source: source@,
                destination: destination@,
                begining,
                ending,
            }),
    {
        Transaction { source, destination, begining, ending }
    }

    /// The node that gives the range away.
    pub fn source(&self) -> (s: &String)
        ensures
            s@ == self@.source,
    {
        &self.source
    }

    /// The node that takes the range over.
    pub fn destination(&self) -> (s: &String)
        ensures
            s@ == self@.destination,
    {
        &self.destination
    }

    /// The position just before the range (not part of it).
    pub fn begining(&self) -> (p: u64)
        ensures
            p == self@.begining,
    {
        self.begining
    }

    /// The last position of the range (part of it).
    pub fn ending(&self) -> (p: u64)
        ensures
            p == self@.ending,
    {
        self.ending
    }

    /// Whether `digest` lies in the range.
    pub fn covers(&self, digest: u64) -> (inside: bool)
        ensures
            inside == self@.covers(digest),
    {
        if self.begining < self.ending {
            self.begining < digest && digest <= self.ending
        } else {
            self.begining < digest || digest <= self.ending
        }
    }
}

/// The values of a list of transactions, in their order.
pub open spec fn views(transactions: Seq<Transaction>) -> Seq<TransactionView> {
    Seq::new(transactions.len(), |i: int| transactions[i]@)
}

/// Where all values of a list have `node` at one end, all transactions of
/// the list have.
pub proof fn lemma_views_ends(transactions: Seq<Transaction>, node: Seq<char>, taking: bool)
    requires
        forall|i: int|
            0 <= i < views(transactions).len() ==> if taking {
                (#[trigger] views(transactions)[i]).destination == node
            } else {
                views(transactions)[i].source == node
            },
    ensures
        views(transactions).len() == transactions.len(),
        forall|i: int|
            0 <= i < transactions.len() ==> if taking {
                (#[trigger] transactions[i])@.destination == node
            } else {
                transactions[i]@.source == node
            },
{
    assert forall|i: int| 0 <= i < transactions.len() implies if taking {
        (#[trigger] transactions[i])@.destination == node
    } else {
        transactions[i]@.source == node
    } by {
        assert(views(transactions)[i] == transactions[i]@);
    }
}

} // verus!
