//! Facts: ordered (subject, object) pairs of dictionary keys.

use vstd::prelude::*;

verus! {

/// One fact of a predicate: a subject key and an object value, both given as
/// the integers under which the term dictionary knows them.
///
/// Facts are ordered lexicographically, subject first and object second.
#[derive(Clone, Copy, Debug, PartialEq, Eq, PartialOrd, Ord, Hash, Structural)]
pub struct Pair {
    pub subject: u64,
    pub object: u64,
}

impl Pair {
    /// The strict lexicographic order on facts.
    pub open spec fn before(self, other: Pair) -> bool {
        self.subject < other.subject || (self.subject == other.subject && self.object
            < other.object)
    }

    /// The non-strict lexicographic order on facts.
    pub open spec fn upto(self, other: Pair) -> bool {
        self.before(other) || self == other
    }

    pub fn new(subject: u64, object: u64) -> (p: Pair)
        ensures
            p.subject == subject,
            p.object == object,
    {
        Pair { subject, object }
    }

    pub fn subject(&self) -> (s: u64)
        ensures
            s == self.subject,
    {
        self.subject
    }

    pub fn object(&self) -> (o: u64)
        ensures
            o == self.object,
    {
        self.object
    }

    /// Whether `self` comes strictly before `other`.
    pub fn precedes(&self, other: &Pair) -> (b: bool)
        ensures
            b == self.before(*other),
    {
        self.subject < other.subject || (self.subject == other.subject && self.object
            < other.object)
    }
}

/// A sequence of facts in strictly ascending order: sorted, and nothing twice.
pub open spec fn ascending(s: Seq<Pair>) -> bool {
    forall|i: int, j: int| 0 <= i < j < s.len() ==> (#[trigger] s[i]).before(#[trigger] s[j])
}

/// The order on facts is total: of two facts one precedes the other, or they
/// are the same fact; and it is transitive.
pub proof fn lemma_order_total(a: Pair, b: Pair, c: Pair)
    ensures
        a.before(b) || b.before(a) || a == b,
        !(a.before(b) && b.before(a)),
        !a.before(a),
        a.before(b) && b.before(c) ==> a.before(c),
        a.upto(b) && b.before(c) ==> a.before(c),
        a.before(b) && b.upto(c) ==> a.before(c),
{
}

} // verus!
