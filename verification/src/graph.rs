//! The store: one partition of facts for each predicate, kept in ascending
//! order of the predicates' identifiers.

use crate::atoms::{AtomSet, Staging};
use crate::fact::Pair;
use vstd::prelude::*;

verus! {

/// Predicate identifiers in strictly ascending order.
pub open spec fn rising(keys: Seq<u64>) -> bool {
    forall|i: int, j: int| 0 <= i < j < keys.len() ==> #[trigger] keys[i] < #[trigger] keys[j]
}

/// A place at which `k` stands in `keys`, if it stands there.
pub closed spec fn place(keys: Seq<u64>, k: u64) -> int {
    choose|i: int| 0 <= i < keys.len() && keys[i] == k
}

/// The mapping that a row of predicates and the row of their partitions
/// stand for.
pub closed spec fn model(keys: Seq<u64>, parts: Seq<AtomSet>) -> Map<u64, Staging> {
    Map::new(|k: u64| keys.contains(k), |k: u64| parts[place(keys, k)]@)
}

proof fn lemma_model_at(keys: Seq<u64>, parts: Seq<AtomSet>, i: int)
    requires
        rising(keys),
        0 <= i < keys.len(),
    ensures
        model(keys, parts).dom().contains(keys[i]),
        model(keys, parts)[keys[i]] == parts[i]@,
        place(keys, keys[i]) == i,
{
    let k = keys[i];
    assert(keys.contains(k));
    let j = place(keys, k);
    if j < i {
        assert(keys[j] < keys[i]);
    } else if i < j {
        assert(keys[i] < keys[j]);
    }
}

/// Putting another partition in a predicate's place maps that predicate to
/// it and leaves the others as they were.
proof fn lemma_model_update(keys: Seq<u64>, parts: Seq<AtomSet>, i: int, x: AtomSet)
    requires
        rising(keys),
        keys.len() == parts.len(),
        0 <= i < keys.len(),
    ensures
        model(keys, parts.update(i, x)) == model(keys, parts).insert(keys[i], x@),
{
    let a = model(keys, parts.update(i, x));
    let b = model(keys, parts).insert(keys[i], x@);
    assert(keys.contains(keys[i]));
    assert forall|k: u64| a.dom().contains(k) implies #[trigger] a[k] == b[k] by {
        let j = place(keys, k);
        lemma_model_at(keys, parts, j);
        lemma_model_at(keys, parts.update(i, x), j);
        lemma_model_at(keys, parts, i);
    }
    assert(a =~= b);
}

/// A new predicate with its partition, put where the order wants it, is
/// mapped to that partition, and the others stay as they were.
proof fn lemma_model_insert(keys: Seq<u64>, parts: Seq<AtomSet>, i: int, k: u64, x: AtomSet)
    requires
        rising(keys),
        keys.len() == parts.len(),
        0 <= i <= keys.len(),
        forall|j: int| 0 <= j < i ==> #[trigger] keys[j] < k,
        forall|j: int| i <= j < keys.len() ==> #[trigger] keys[j] > k,
    ensures
        rising(keys.insert(i, k)),
        model(keys.insert(i, k), parts.insert(i, x)) == model(keys, parts).insert(k, x@),
{
    let keys2 = keys.insert(i, k);
    let parts2 = parts.insert(i, x);
    assert forall|a: int, b: int| 0 <= a < b < keys2.len() implies #[trigger] keys2[a]
        < #[trigger] keys2[b] by {
        if b < i {
            assert(keys[a] < keys[b]);
        } else if b == i {
            assert(keys[a] < k);
        } else if a < i {
            assert(keys[a] < k);
            assert(keys[b - 1] > k);
        } else if a == i {
            assert(keys[b - 1] > k);
        } else {
            assert(keys[a - 1] < keys[b - 1]);
        }
    }
    let m2 = model(keys2, parts2);
    let m1 = model(keys, parts).insert(k, x@);
    assert forall|q: u64| m2.dom().contains(q) <==> m1.dom().contains(q) by {
        if keys2.contains(q) {
            let j = choose|j: int| 0 <= j < keys2.len() && keys2[j] == q;
            if j < i {
                assert(keys[j] == q);
            } else if j > i {
                assert(keys[j - 1] == q);
            }
        }
        if keys.contains(q) {
            let j = choose|j: int| 0 <= j < keys.len() && keys[j] == q;
            if j < i {
                assert(keys2[j] == q);
            } else {
                assert(keys2[j + 1] == q);
            }
        }
        if q == k {
            assert(keys2[i] == k);
        }
    }
    assert forall|q: u64| m2.dom().contains(q) implies #[trigger] m2[q] == m1[q] by {
        let j = place(keys2, q);
        lemma_model_at(keys2, parts2, j);
        if j < i {
            lemma_model_at(keys, parts, j);
        } else if j > i {
            lemma_model_at(keys, parts, j - 1);
        }
    }
    assert(m2 =~= m1);
}

/// The state of a partition that holds nothing.
pub open spec fn blank() -> Staging {
    Staging { stable: Set::empty(), delta: Set::empty(), backlog: Set::empty() }
}

/// The state of `predicate`'s partition in `store`; that of an empty one if
/// it has none there.
pub open spec fn partition_of(store: Map<u64, Staging>, predicate: u64) -> Staging {
    if store.dom().contains(predicate) {
        store[predicate]
    } else {
        blank()
    }
}

/// If in no partition a round derived anything but what was known there
/// already, no partition's step reports a change: the round that follows
/// is the last.
pub proof fn lemma_round_halts(store: Map<u64, Staging>)
    requires
        forall|k: u64|
            store.dom().contains(k) ==> (#[trigger] store[k]).backlog.subset_of(store[k].known()),
    ensures
        forall|k: u64| store.dom().contains(k) ==> !(#[trigger] store[k]).advances(),
        !exists|k: u64| store.dom().contains(k) && (#[trigger] store[k]).advances(),
{
}

/// The store: an ordered mapping from predicate identifier to partition.
pub struct Graph {
    keys: Vec<u64>,
    parts: Vec<AtomSet>,
}

impl View for Graph {
    type V = Map<u64, Staging>;

    /// The state of each predicate's partition.
    closed spec fn view(&self) -> Map<u64, Staging> {
        model(self.keys@, self.parts@)
    }
}

impl Graph {
    /// The predicates that have a partition, ascending.
    pub closed spec fn predicates(&self) -> Seq<u64> {
        self.keys@
    }

    pub closed spec fn wf(&self) -> bool {
        &&& self.keys@.len() == self.parts@.len()
        &&& rising(self.keys@)
        &&& forall|i: int| 0 <= i < self.parts@.len() ==> (#[trigger] self.parts@[i]).wf()
    }

    /// The view has the predicates as its domain.
    pub proof fn lemma_domain(&self)
        requires
            self.wf(),
        ensures
            rising(self.predicates()),
            forall|k: u64| self@.dom().contains(k) <==> self.predicates().contains(k),
    {
    }

    proof fn lemma_at(&self, i: int)
        requires
            self.wf(),
            0 <= i < self.keys@.len(),
        ensures
            self@.dom().contains(self.keys@[i]),
            self@[self.keys@[i]] == self.parts@[i]@,
    {
        lemma_model_at(self.keys@, self.parts@, i);
    }

    pub fn new() -> (g: Graph)
        ensures
            g.wf(),
            g@ == Map::<u64, Staging>::empty(),
            g.predicates() == Seq::<u64>::empty(),
    {
        let g = Graph { keys: Vec::new(), parts: Vec::new() };
        assert(g@ =~= Map::<u64, Staging>::empty());
        g
    }

    /// The number of predicates that have a partition.
    pub fn len(&self) -> (n: usize)
        ensures
            n == self.predicates().len(),
    {
        self.keys.len()
    }

    /// The first place whose predicate is not below `predicate`.
    fn find(&self, predicate: u64) -> (i: usize)
        requires
            self.wf(),
        ensures
            i <= self.keys@.len(),
            forall|j: int| 0 <= j < i ==> #[trigger] self.keys@[j] < predicate,
            forall|j: int| i <= j < self.keys@.len() ==> #[trigger] self.keys@[j] >= predicate,
            self@.dom().contains(predicate) <==> i < self.keys@.len() && self.keys@[i as int]
                == predicate,
    {
        let mut lo: usize = 0;
        let mut hi: usize = self.keys.len();
        while lo < hi
            invariant
                self.wf(),
                lo <= hi <= self.keys@.len(),
                forall|j: int| 0 <= j < lo ==> #[trigger] self.keys@[j] < predicate,
                forall|j: int| hi <= j < self.keys@.len() ==> #[trigger] self.keys@[j] >= predicate,
            decreases hi - lo,
        {
            let mid: usize = lo + (hi - lo) / 2;
            if self.keys[mid] < predicate {
                assert forall|j: int| 0 <= j < mid + 1 implies #[trigger] self.keys@[j]
                    < predicate by {
                    if j < mid {
                        assert(self.keys@[j] < self.keys@[mid as int]);
                    }
                }
                lo = mid + 1;
            } else {
                assert forall|j: int| mid <= j < self.keys@.len() implies #[trigger] self.keys@[j]
                    >= predicate by {
                    if mid < j {
                        assert(self.keys@[mid as int] < self.keys@[j]);
                    }
                }
                hi = mid;
            }
        }
        proof {
            if self.keys@.contains(predicate) {
                let j = place(self.keys@, predicate);
                assert(self.keys@[j] == predicate);
                if j < lo {
                    assert(self.keys@[j] < predicate);
                } else if j > lo {
                    assert(self.keys@[lo as int] < self.keys@[j]);
                }
            }
            if lo < self.keys@.len() && self.keys@[lo as int] == predicate {
                assert(self.keys@.contains(predicate));
            }
        }
        lo
    }

    /// The predicate at place `i` of the ascending order.
    pub fn predicate_at(&self, i: usize) -> (k: u64)
        requires
            i < self.predicates().len(),
        ensures
            k == self.predicates()[i as int],
    {
        self.keys[i]
    }

    /// The partition of `predicate`, if it has one.
    pub fn get(&self, predicate: u64) -> (r: Option<&AtomSet>)
        requires
            self.wf(),
        ensures
            r.is_some() == self@.dom().contains(predicate),
            r matches Some(set) ==> set.wf() && set@ == self@[predicate],
    {
        let i = self.find(predicate);
        if i < self.keys.len() && self.keys[i] == predicate {
            proof {
                self.lemma_at(i as int);
            }
            Some(&self.parts[i])
        } else {
            None
        }
    }

    /// The partition of `predicate` for changing it, if it has one.
    pub fn get_mut(&mut self, predicate: u64) -> (r: Option<&mut AtomSet>)
        requires
            old(self).wf(),
        ensures
            r.is_some() == old(self)@.dom().contains(predicate),
            r.is_none() ==> final(self).wf() && final(self)@ == old(self)@,
            r matches Some(set) ==> set.wf() && set@ == old(self)@[predicate],
            r matches Some(set) ==> final(self)@ == old(self)@.insert(predicate, final(set)@),
            r matches Some(set) ==> (final(set).wf() ==> final(self).wf()),
    {
        let i = self.find(predicate);
        if i < self.keys.len() && self.keys[i] == predicate {
            proof {
                self.lemma_at(i as int);
            }
            let set = &mut self.parts[i];
            proof {
                lemma_model_update(old(self).keys@, old(self).parts@, i as int, *final(set));
            }
            Some(set)
        } else {
            None
        }
    }

    /// Gives `predicate` the partition `pairset`, and hands back the one
    /// that it had before, if it had one.
    pub fn insert(&mut self, predicate: u64, pairset: AtomSet) -> (r: Option<AtomSet>)
        requires
            old(self).wf(),
            pairset.wf(),
        ensures
            final(self).wf(),
            final(self)@ == old(self)@.insert(predicate, pairset@),
            r.is_some() == old(self)@.dom().contains(predicate),
            r matches Some(prev) ==> prev.wf() && prev@ == old(self)@[predicate],
    {
        let i = self.find(predicate);
        if i < self.keys.len() && self.keys[i] == predicate {
            proof {
                self.lemma_at(i as int);
                lemma_model_update(self.keys@, self.parts@, i as int, pairset);
            }
            self.parts.push(pairset);
            let prev = self.parts.swap_remove(i);
            assert(self.parts@ =~= old(self).parts@.update(i as int, pairset));
            Some(prev)
        } else {
            proof {
                assert forall|j: int| i <= j < self.keys@.len() implies #[trigger] self.keys@[j]
                    > predicate by {
                    if j > i {
                        assert(self.keys@[i as int] < self.keys@[j]);
                    }
                }
                lemma_model_insert(self.keys@, self.parts@, i as int, predicate, pairset);
            }
            self.keys.insert(i, predicate);
            self.parts.insert(i, pairset);
            None
        }
    }

    /// The partition of `predicate` for changing it, made empty first if the
    /// predicate had none.
    pub fn get_or_create_partition(&mut self, predicate: u64) -> (set: &mut AtomSet)
        requires
            old(self).wf(),
        ensures
            set.wf(),
            set@ == partition_of(old(self)@, predicate),
            final(self)@ == old(self)@.insert(predicate, final(set)@),
            final(set).wf() ==> final(self).wf(),
    {
        let i = self.find(predicate);
        if !(i < self.keys.len() && self.keys[i] == predicate) {
            let fresh = AtomSet::new();
            proof {
                assert forall|j: int| i <= j < self.keys@.len() implies #[trigger] self.keys@[j]
                    > predicate by {
                    if j > i {
                        assert(self.keys@[i as int] < self.keys@[j]);
                    }
                }
                lemma_model_insert(self.keys@, self.parts@, i as int, predicate, fresh);
                assert(fresh@ == blank());
            }
            self.keys.insert(i, predicate);
            self.parts.insert(i, fresh);
        }
        let ghost mid = *self;
        proof {
            lemma_model_at(mid.keys@, mid.parts@, i as int);
            assert(mid@ =~= old(self)@.insert(predicate, mid.parts@[i as int]@));
        }
        let set = &mut self.parts[i];
        proof {
            lemma_model_update(mid.keys@, mid.parts@, i as int, *final(set));
            assert(mid@.insert(predicate, final(set)@) =~= old(self)@.insert(
                predicate,
                final(set)@,
            ));
        }
        set
    }

    /// Puts a ground fact into the settled facts of `predicate`, whose
    /// partition is made if this is its first fact; says whether the fact
    /// was new there.
    pub fn insert_fact(&mut self, predicate: u64, fact: Pair) -> (fresh: bool)
        requires
            old(self).wf(),
        ensures
            final(self).wf(),
            final(self)@ == old(self)@.insert(
                predicate,
                partition_of(old(self)@, predicate).ingest(fact),
            ),
            fresh == !partition_of(old(self)@, predicate).stable.contains(fact),
    {
        let set = self.get_or_create_partition(predicate);
        set.insert(fact)
    }

    /// Puts a derived fact into the backlog of `predicate`, whose partition
    /// is made if it had none; says whether the fact was new there.
    pub fn derive_fact(&mut self, predicate: u64, fact: Pair) -> (fresh: bool)
        requires
            old(self).wf(),
        ensures
            final(self).wf(),
            final(self)@ == old(self)@.insert(
                predicate,
                partition_of(old(self)@, predicate).deposit(fact),
            ),
            fresh == !partition_of(old(self)@, predicate).backlog.contains(fact),
    {
        let set = self.get_or_create_partition(predicate);
        set.derive(fact)
    }

    /// Closes a round: every partition makes its staging transition. Says
    /// whether any of them has something new in its `delta`; the fixpoint is
    /// reached when none has.
    pub fn advance(&mut self) -> (moved: bool)
        requires
            old(self).wf(),
        ensures
            final(self).wf(),
            final(self).predicates() == old(self).predicates(),
            final(self)@.dom() == old(self)@.dom(),
            forall|k: u64|
                old(self)@.dom().contains(k) ==> #[trigger] final(self)@[k]
                    == old(self)@[k].advance(),
            moved <==> exists|k: u64|
                old(self)@.dom().contains(k) && (#[trigger] old(self)@[k]).advances(),
    {
        let n: usize = self.parts.len();
        let mut moved = false;
        let mut i: usize = 0;
        while i < n
            invariant
                i <= n,
                n == self.parts@.len(),
                self.keys@ == old(self).keys@,
                self.wf(),
                old(self).wf(),
                forall|j: int|
                    0 <= j < i ==> (#[trigger] self.parts@[j])@
                        == old(self).parts@[j]@.advance(),
                forall|j: int| i <= j < n ==> #[trigger] self.parts@[j] == old(self).parts@[j],
                moved <==> exists|j: int| 0 <= j < i && (#[trigger] old(self).parts@[j])@.advances(),
            decreases n - i,
        {
            let ghost was = self.parts@;
            let one = self.parts[i].changed();
            proof {
                assert(old(self).parts@[i as int] == was[i as int]);
                assert forall|j: int| 0 <= j < self.parts@.len() implies (
                #[trigger] self.parts@[j]).wf() by {
                    if j != i {
                        assert(was[j].wf());
                    }
                }
                if one {
                    assert(old(self).parts@[i as int]@.advances());
                }
            }
            moved = moved || one;
            i = i + 1;
        }
        proof {
            assert(final(self)@.dom() =~= old(self)@.dom());
            assert forall|k: u64| old(self)@.dom().contains(k) implies #[trigger] final(self)@[k]
                == old(self)@[k].advance() by {
                let j = place(self.keys@, k);
                lemma_model_at(self.keys@, self.parts@, j);
                lemma_model_at(old(self).keys@, old(self).parts@, j);
            }
            if moved {
                let j = choose|j: int| 0 <= j < n && (#[trigger] old(self).parts@[j])@.advances();
                lemma_model_at(old(self).keys@, old(self).parts@, j);
                assert(old(self)@.dom().contains(self.keys@[j]));
            }
            if exists|k: u64| old(self)@.dom().contains(k) && (#[trigger] old(self)@[k]).advances() {
                let k = choose|k: u64|
                    old(self)@.dom().contains(k) && (#[trigger] old(self)@[k]).advances();
                let j = place(self.keys@, k);
                lemma_model_at(old(self).keys@, old(self).parts@, j);
                assert(old(self).parts@[j]@.advances());
            }
        }
        moved
    }

    /// The predicates that have a partition, in ascending order.
    pub fn keys(&self) -> (v: Vec<u64>)
        ensures
            v@ == self.predicates(),
    {
        self.keys.clone()
    }
}

} // verus!
