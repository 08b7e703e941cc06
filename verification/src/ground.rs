//! Ordered sets of facts, and the seekable cursor over one.

use crate::fact::{ascending, Pair};
use vstd::prelude::*;

verus! {

/// Where a cursor that stands at `from` in `s` comes to rest when it seeks
/// `target`: the first index from `from` on whose fact does not precede
/// `target`, or the length of `s` if there is none.
pub open spec fn seek_pos(s: Seq<Pair>, from: int, target: Pair) -> int
    decreases s.len() - from,
{
    if 0 <= from < s.len() && s[from].before(target) {
        seek_pos(s, from + 1, target)
    } else {
        from
    }
}

/// A seek never moves backward and never past the end.
pub proof fn lemma_seek_pos_bounds(s: Seq<Pair>, from: int, target: Pair)
    requires
        0 <= from <= s.len(),
    ensures
        from <= seek_pos(s, from, target) <= s.len(),
        forall|k: int| from <= k < seek_pos(s, from, target) ==> (#[trigger] s[k]).before(target),
        seek_pos(s, from, target) < s.len() ==> !s[seek_pos(s, from, target)].before(target),
    decreases s.len() - from,
{
    if from < s.len() && s[from].before(target) {
        lemma_seek_pos_bounds(s, from + 1, target);
    }
}

/// The resting place of a seek is the only index with everything before it
/// (from the start of the seek) preceding the target and its own fact not.
pub proof fn lemma_seek_pos_is(s: Seq<Pair>, from: int, target: Pair, r: int)
    requires
        0 <= from <= r <= s.len(),
        forall|k: int| from <= k < r ==> (#[trigger] s[k]).before(target),
        r < s.len() ==> !s[r].before(target),
    ensures
        seek_pos(s, from, target) == r,
    decreases r - from,
{
    if from < r {
        assert(s[from].before(target));
        lemma_seek_pos_is(s, from + 1, target, r);
    }
}

/// An ordered set of facts, kept as a strictly ascending vector.
pub struct GroundSet {
    items: Vec<Pair>,
}

impl View for GroundSet {
    type V = Set<Pair>;

    /// The facts that the set holds.
    closed spec fn view(&self) -> Set<Pair> {
        self.items@.to_set()
    }
}

impl GroundSet {
    /// The facts of the set in the order in which a cursor walks them.
    pub closed spec fn seq(&self) -> Seq<Pair> {
        self.items@
    }

    /// The facts stand in strictly ascending order.
    pub open spec fn wf(&self) -> bool {
        ascending(self.seq())
    }

    /// The view is the set of what the sequence holds.
    pub proof fn lemma_view(&self)
        ensures
            self@ == self.seq().to_set(),
            self@.finite(),
            forall|p: Pair| self@.contains(p) <==> self.seq().contains(p),
    {
        broadcast use vstd::seq_lib::group_seq_properties;
    }

    pub fn new() -> (s: GroundSet)
        ensures
            s.wf(),
            s.seq() == Seq::<Pair>::empty(),
            s@ == Set::<Pair>::empty(),
    {
        let s = GroundSet { items: Vec::new() };
        assert(s.items@.to_set() =~= Set::<Pair>::empty());
        s
    }

    pub fn len(&self) -> (n: usize)
        ensures
            n == self.seq().len(),
    {
        self.items.len()
    }

    pub fn is_empty(&self) -> (b: bool)
        ensures
            b == (self.seq().len() == 0),
            b == (self@ == Set::<Pair>::empty()),
    {
        proof {
            self.lemma_view();
            if self.items@.len() > 0 {
                assert(self.items@.contains(self.items@[0]));
            } else {
                assert(self@ =~= Set::<Pair>::empty());
            }
        }
        self.items.len() == 0
    }

    /// The fact at place `i` of the ascending order.
    pub fn get(&self, i: usize) -> (p: Pair)
        requires
            i < self.seq().len(),
        ensures
            p == self.seq()[i as int],
    {
        self.items[i]
    }

    /// The first place from `from` on whose fact does not precede `target`.
    pub fn lower_bound(&self, from: usize, target: &Pair) -> (r: usize)
        requires
            self.wf(),
            from <= self.seq().len(),
        ensures
            r == seek_pos(self.seq(), from as int, *target),
    {
        let mut lo: usize = from;
        let mut hi: usize = self.items.len();
        while lo < hi
            invariant
                self.wf(),
                from <= lo <= hi <= self.items@.len(),
                forall|k: int| from <= k < lo ==> (#[trigger] self.items@[k]).before(*target),
                hi < self.items@.len() ==> !self.items@[hi as int].before(*target),
            decreases hi - lo,
        {
            let mid: usize = lo + (hi - lo) / 2;
            if self.items[mid].precedes(target) {
                assert forall|k: int| from <= k < mid + 1 implies (#[trigger] self.items@[k]).before(
                    *target,
                ) by {
                    if k < mid {
                        assert(self.items@[k].before(self.items@[mid as int]));
                    }
                }
                lo = mid + 1;
            } else {
                hi = mid;
            }
        }
        proof {
            lemma_seek_pos_is(self.seq(), from as int, *target, lo as int);
        }
        lo
    }

    pub fn contains(&self, p: &Pair) -> (b: bool)
        requires
            self.wf(),
        ensures
            b == self@.contains(*p),
    {
        let i = self.lower_bound(0, p);
        proof {
            self.lemma_view();
            lemma_seek_pos_bounds(self.seq(), 0, *p);
            if i < self.items@.len() && self.items@[i as int] == *p {
                assert(self.items@.contains(*p));
            } else if self.items@.contains(*p) {
                let k = choose|k: int| 0 <= k < self.items@.len() && self.items@[k] == *p;
                if k < i {
                    assert(self.items@[k].before(*p));
                } else if k > i {
                    assert(self.items@[i as int].before(self.items@[k]));
                }
            }
        }
        i < self.items.len() && self.items[i] == *p
    }

    /// Adds `p`, and says whether it was new.
    pub fn insert(&mut self, p: Pair) -> (fresh: bool)
        requires
            old(self).wf(),
        ensures
            final(self).wf(),
            final(self)@ == old(self)@.insert(p),
            fresh == !old(self)@.contains(p),
    {
        let i = self.lower_bound(0, &p);
        proof {
            self.lemma_view();
            lemma_seek_pos_bounds(self.seq(), 0, p);
        }
        if i < self.items.len() && self.items[i] == p {
            proof {
                assert(self.items@.contains(p));
                assert(self@ =~= self@.insert(p));
            }
            false
        } else {
            let ghost before = self.items@;
            proof {
                if before.contains(p) {
                    let k = choose|k: int| 0 <= k < before.len() && before[k] == p;
                    if k < i {
                        assert(before[k].before(p));
                    } else if k > i {
                        assert(before[i as int].before(before[k]));
                    }
                }
            }
            self.items.insert(i, p);
            proof {
                let after = self.items@;
                assert(after == before.insert(i as int, p));
                assert forall|a: int, b: int| 0 <= a < b < after.len() implies (#[trigger] after[a]).before(
                    #[trigger] after[b],
                ) by {
                    if b < i {
                        assert(before[a].before(before[b]));
                    } else if b == i {
                        assert(before[a].before(p));
                    } else if a < i {
                        assert(before[a].before(before[b - 1]));
                    } else if a == i {
                        if b - 1 > i {
                            assert(before[i as int].before(before[b - 1]));
                        }
                    } else {
                        assert(before[a - 1].before(before[b - 1]));
                    }
                }
                assert forall|q: Pair| after.to_set().contains(q) <==> before.to_set().insert(
                    p,
                ).contains(q) by {
                    if after.contains(q) {
                        let k = choose|k: int| 0 <= k < after.len() && after[k] == q;
                        if k < i {
                            assert(before[k] == q);
                        } else if k > i {
                            assert(before[k - 1] == q);
                        }
                    }
                    if before.contains(q) {
                        let k = choose|k: int| 0 <= k < before.len() && before[k] == q;
                        if k < i {
                            assert(after[k] == q);
                        } else {
                            assert(after[k + 1] == q);
                        }
                    }
                    if q == p {
                        assert(after[i as int] == p);
                    }
                }
                assert(self@ =~= old(self)@.insert(p));
            }
            true
        }
    }

    /// Empties the set.
    pub fn clear(&mut self)
        ensures
            final(self).wf(),
            final(self).seq() == Seq::<Pair>::empty(),
            final(self)@ == Set::<Pair>::empty(),
    {
        self.items.clear();
        assert(self.items@.to_set() =~= Set::<Pair>::empty());
    }

    /// Moves every fact of `other` into `self`, and leaves `other` empty.
    pub fn append(&mut self, other: &mut GroundSet)
        requires
            old(self).wf(),
            old(other).wf(),
        ensures
            final(self).wf(),
            final(other).wf(),
            final(self)@ == old(self)@.union(old(other)@),
            final(other)@ == Set::<Pair>::empty(),
    {
        let n: usize = other.items.len();
        let mut k: usize = 0;
        proof {
            assert(other.items@.subrange(0, 0).to_set() =~= Set::<Pair>::empty());
            assert(self@ =~= old(self)@.union(Set::<Pair>::empty()));
        }
        while k < n
            invariant
                self.wf(),
                other.wf(),
                *other == *old(other),
                n == other.items@.len(),
                k <= n,
                self@ == old(self)@.union(other.items@.subrange(0, k as int).to_set()),
            decreases n - k,
        {
            let p: Pair = other.items[k];
            let ghost done = other.items@.subrange(0, k as int);
            let ghost more = other.items@.subrange(0, k + 1);
            self.insert(p);
            proof {
                assert(more =~= done.push(p));
                assert forall|q: Pair| more.to_set().contains(q) <==> done.to_set().insert(
                    p,
                ).contains(q) by {
                    if more.contains(q) {
                        let i = choose|i: int| 0 <= i < more.len() && more[i] == q;
                        if i < k {
                            assert(done[i] == q);
                        }
                    }
                    if done.contains(q) {
                        let i = choose|i: int| 0 <= i < done.len() && done[i] == q;
                        assert(more[i] == q);
                    }
                    if q == p {
                        assert(more[k as int] == p);
                    }
                }
                assert(more.to_set() =~= done.to_set().insert(p));
                assert(self@ =~= old(self)@.union(more.to_set()));
            }
            k = k + 1;
        }
        proof {
            assert(other.items@.subrange(0, n as int) =~= other.items@);
        }
        other.clear();
    }

    /// The facts of `self` that `other` does not hold.
    pub fn difference(&self, other: &GroundSet) -> (d: GroundSet)
        requires
            self.wf(),
            other.wf(),
        ensures
            d.wf(),
            d@ == self@.difference(other@),
    {
        let mut out: Vec<Pair> = Vec::new();
        let n: usize = self.items.len();
        let mut k: usize = 0;
        while k < n
            invariant
                self.wf(),
                other.wf(),
                n == self.items@.len(),
                k <= n,
                ascending(out@),
                forall|i: int|
                    0 <= i < out@.len() ==> exists|j: int|
                        0 <= j < k && self.items@[j] == #[trigger] out@[i],
                forall|j: int|
                    0 <= j < k && !other@.contains(#[trigger] self.items@[j]) ==> out@.contains(
                        self.items@[j],
                    ),
                forall|i: int| 0 <= i < out@.len() ==> !other@.contains(#[trigger] out@[i]),
            decreases n - k,
        {
            let p: Pair = self.items[k];
            if !other.contains(&p) {
                let ghost prev = out@;
                out.push(p);
                proof {
                    assert forall|a: int, b: int| 0 <= a < b < out@.len() implies (
                    #[trigger] out@[a]).before(#[trigger] out@[b]) by {
                        if b == prev.len() {
                            let j = choose|j: int| 0 <= j < k && self.items@[j] == prev[a];
                            assert(self.items@[j].before(self.items@[k as int]));
                        } else {
                            assert(prev[a].before(prev[b]));
                        }
                    }
                    assert forall|i: int| 0 <= i < out@.len() implies exists|j: int|
                        0 <= j < k + 1 && self.items@[j] == #[trigger] out@[i] by {
                        if i < prev.len() {
                            let j = choose|j: int| 0 <= j < k && self.items@[j] == prev[i];
                            assert(self.items@[j] == out@[i]);
                        } else {
                            assert(self.items@[k as int] == out@[i]);
                        }
                    }
                    assert forall|j: int|
                        0 <= j < k + 1 && !other@.contains(
                            #[trigger] self.items@[j],
                        ) implies out@.contains(self.items@[j]) by {
                        if j < k {
                            assert(prev.contains(self.items@[j]));
                            let i = choose|i: int| 0 <= i < prev.len() && prev[i] == self.items@[j];
                            assert(out@[i] == self.items@[j]);
                        } else {
                            assert(out@[prev.len() as int] == p);
                        }
                    }
                }
            }
            k = k + 1;
        }
        let d = GroundSet { items: out };
        proof {
            assert forall|q: Pair| d@.contains(q) <==> self@.difference(other@).contains(q) by {
                if d.items@.contains(q) {
                    let i = choose|i: int| 0 <= i < d.items@.len() && d.items@[i] == q;
                    let j = choose|j: int| 0 <= j < k && self.items@[j] == d.items@[i];
                    assert(self.items@.contains(q));
                }
                if self.items@.contains(q) && !other@.contains(q) {
                    let j = choose|j: int| 0 <= j < self.items@.len() && self.items@[j] == q;
                    assert(d.items@.contains(self.items@[j]));
                }
            }
            assert(d@ =~= self@.difference(other@));
        }
        d
    }

    /// The subjects of the set as join keys: for each subject that has a
    /// fact here, the one fact of that subject with object 0.
    pub fn subjects(&self) -> (d: GroundSet)
        requires
            self.wf(),
        ensures
            d.wf(),
            forall|p: Pair|
                d@.contains(p) <==> p.object == 0 && exists|o: u64|
                    self@.contains(Pair { subject: p.subject, object: o }),
    {
        let mut out: Vec<Pair> = Vec::new();
        let n: usize = self.items.len();
        let mut k: usize = 0;
        while k < n
            invariant
                self.wf(),
                n == self.items@.len(),
                k <= n,
                ascending(out@),
                forall|i: int|
                    0 <= i < out@.len() ==> (#[trigger] out@[i]).object == 0 && exists|j: int|
                        0 <= j < k && self.items@[j].subject == out@[i].subject,
                forall|j: int|
                    0 <= j < k ==> out@.contains(
                        Pair { subject: (#[trigger] self.items@[j]).subject, object: 0 },
                    ),
            decreases n - k,
        {
            let s: u64 = self.items[k].subject;
            let ghost prev = out@;
            if k == 0 || self.items[k - 1].subject != s {
                out.push(Pair::new(s, 0));
                proof {
                    let key = Pair { subject: s, object: 0 };
                    assert forall|a: int, b: int| 0 <= a < b < out@.len() implies (
                    #[trigger] out@[a]).before(#[trigger] out@[b]) by {
                        if b == prev.len() {
                            let j = choose|j: int|
                                0 <= j < k && self.items@[j].subject == prev[a].subject;
                            if j < k - 1 {
                                assert(self.items@[j].before(self.items@[k - 1]));
                            }
                            assert(self.items@[k - 1].before(self.items@[k as int]));
                        } else {
                            assert(prev[a].before(prev[b]));
                        }
                    }
                    assert(out@[prev.len() as int] == key);
                }
            } else {
                proof {
                    assert(prev.contains(
                        Pair { subject: self.items@[k - 1].subject, object: 0 },
                    ));
                }
            }
            proof {
                assert forall|i: int| 0 <= i < out@.len() implies (#[trigger] out@[i]).object == 0
                    && exists|j: int|
                    0 <= j < k + 1 && self.items@[j].subject == out@[i].subject by {
                    if i < prev.len() {
                        let j = choose|j: int|
                            0 <= j < k && self.items@[j].subject == prev[i].subject;
                        assert(0 <= j < k + 1 && self.items@[j].subject == out@[i].subject);
                    } else {
                        assert(self.items@[k as int].subject == out@[i].subject);
                    }
                }
                assert forall|j: int| 0 <= j < k + 1 implies out@.contains(
                    Pair { subject: (#[trigger] self.items@[j]).subject, object: 0 },
                ) by {
                    let key = Pair { subject: self.items@[j].subject, object: 0 };
                    if j < k {
                        assert(prev.contains(key));
                    } else {
                        assert(key.subject == s);
                        assert(key.subject == self.items@[k as int].subject);
                        if k > 0 && self.items@[k - 1].subject == s {
                            assert(prev.contains(key));
                        }
                    }
                    if prev.contains(key) {
                        let i = choose|i: int| 0 <= i < prev.len() && prev[i] == key;
                        assert(out@[i] == key);
                    }
                }
            }
            k = k + 1;
        }
        let d = GroundSet { items: out };
        proof {
            self.lemma_view();
            d.lemma_view();
            assert forall|p: Pair|
                d@.contains(p) <==> p.object == 0 && exists|o: u64|
                    self@.contains(Pair { subject: p.subject, object: o }) by {
                if d.items@.contains(p) {
                    let i = choose|i: int| 0 <= i < d.items@.len() && d.items@[i] == p;
                    let j = choose|j: int|
                        0 <= j < n && self.items@[j].subject == d.items@[i].subject;
                    let f = self.items@[j];
                    assert(self.items@.contains(f));
                    assert(f == Pair { subject: p.subject, object: f.object });
                    assert(self@.contains(Pair { subject: p.subject, object: f.object }));
                }
                if p.object == 0 && exists|o: u64|
                    self@.contains(Pair { subject: p.subject, object: o }) {
                    let o = choose|o: u64| self@.contains(Pair { subject: p.subject, object: o });
                    let f = Pair { subject: p.subject, object: o };
                    assert(self.items@.contains(f));
                    let j = choose|j: int| 0 <= j < self.items@.len() && self.items@[j] == f;
                    assert(d.items@.contains(
                        Pair { subject: self.items@[j].subject, object: 0 },
                    ));
                }
            }
        }
        d
    }

    /// The facts in ascending order.
    pub fn to_vec(&self) -> (v: Vec<Pair>)
        ensures
            v@ == self.seq(),
    {
        self.items.clone()
    }
}

} // verus!
