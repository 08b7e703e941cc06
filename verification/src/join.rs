//! The leapfrog join: several cursors, each over its own ordered set, walked
//! together so that only the facts that every set holds are visited.

use crate::cursor::{exhausted, head, holds, left, lemma_seek_keeps, placed, Seekable, SetIter};
use crate::fact::{ascending, Pair};
use crate::ground::{lemma_seek_pos_bounds, GroundSet};
use vstd::prelude::*;

verus! {

/// Every cursor still holds `p`.
pub open spec fn in_all<I: Seekable>(cursors: Seq<I>, p: Pair) -> bool {
    forall|i: int| 0 <= i < cursors.len() ==> holds(#[trigger] cursors[i], p)
}

/// Every cursor walks an ascending sequence and stands inside it.
pub open spec fn all_placed<I: Seekable>(cursors: Seq<I>) -> bool {
    forall|i: int| 0 <= i < cursors.len() ==> placed(#[trigger] cursors[i])
}

/// The number of facts that the cursors have not passed yet, all together.
pub open spec fn total_left<I: Seekable>(cursors: Seq<I>) -> int
    decreases cursors.len(),
{
    if cursors.len() == 0 {
        0
    } else {
        total_left(cursors.drop_last()) + left(cursors.last())
    }
}

proof fn lemma_total_left_nonneg<I: Seekable>(cursors: Seq<I>)
    requires
        all_placed(cursors),
    ensures
        total_left(cursors) >= 0,
    decreases cursors.len(),
{
    if cursors.len() > 0 {
        let front = cursors.drop_last();
        assert forall|i: int| 0 <= i < front.len() implies placed(#[trigger] front[i]) by {
            assert(placed(cursors[i]));
        }
        lemma_total_left_nonneg(front);
        assert(placed(cursors.last()));
    }
}

proof fn lemma_total_left_update<I: Seekable>(cursors: Seq<I>, i: int, moved: I)
    requires
        0 <= i < cursors.len(),
    ensures
        total_left(cursors.update(i, moved)) == total_left(cursors) - left(cursors[i])
            + left(moved),
    decreases cursors.len(),
{
    let after = cursors.update(i, moved);
    if i == cursors.len() - 1 {
        assert(after.drop_last() =~= cursors.drop_last());
    } else {
        assert(after.drop_last() =~= cursors.drop_last().update(i, moved));
        lemma_total_left_update(cursors.drop_last(), i, moved);
    }
}

/// Leapfrogs the cursors forward until one of them is exhausted or all of
/// them stand on the same fact, and says which: `true` for exhausted.
fn settle<I: Seekable>(cursors: &mut Vec<I>) -> (ended: bool)
    requires
        old(cursors)@.len() >= 1,
        all_placed(old(cursors)@),
    ensures
        final(cursors)@.len() == old(cursors)@.len(),
        all_placed(final(cursors)@),
        forall|p: Pair| in_all(final(cursors)@, p) <==> in_all(old(cursors)@, p),
        ended <==> exists|i: int|
            0 <= i < final(cursors)@.len() && exhausted(#[trigger] final(cursors)@[i]),
        !ended ==> forall|i: int|
            0 <= i < final(cursors)@.len() ==> head(#[trigger] final(cursors)@[i])
                == head(final(cursors)@[0]),
        0 <= total_left(final(cursors)@) <= total_left(old(cursors)@),
{
    let k: usize = cursors.len();
    proof {
        lemma_total_left_nonneg(cursors@);
    }
    loop
        invariant
            k == cursors@.len(),
            k == old(cursors)@.len(),
            k >= 1,
            all_placed(cursors@),
            forall|p: Pair| in_all(cursors@, p) <==> in_all(old(cursors)@, p),
            0 <= total_left(cursors@) <= total_left(old(cursors)@),
        decreases total_left(cursors@),
    {
        let first = cursors[0].current();
        if first.is_none() {
            assert(exhausted(cursors@[0]));
            return true;
        }
        let mut low: usize = 0;
        let mut high: usize = 0;
        let mut low_key: Pair = first.unwrap();
        let mut high_key: Pair = low_key;
        let mut i: usize = 1;
        while i < k
            invariant
                k == cursors@.len(),
                k == old(cursors)@.len(),
                all_placed(cursors@),
                forall|p: Pair| in_all(cursors@, p) <==> in_all(old(cursors)@, p),
                0 <= total_left(cursors@) <= total_left(old(cursors)@),
                1 <= i <= k,
                low < i,
                high < i,
                forall|j: int| 0 <= j < i ==> !exhausted(#[trigger] cursors@[j]),
                low_key == head(cursors@[low as int]),
                high_key == head(cursors@[high as int]),
                forall|j: int|
                    0 <= j < i ==> low_key.upto(head(#[trigger] cursors@[j]))
                        && head(cursors@[j]).upto(high_key),
            decreases k - i,
        {
            let here = cursors[i].current();
            if here.is_none() {
                assert(exhausted(cursors@[i as int]));
                return true;
            }
            let c: Pair = here.unwrap();
            if c.precedes(&low_key) {
                low = i;
                low_key = c;
            }
            if high_key.precedes(&c) {
                high = i;
                high_key = c;
            }
            i = i + 1;
        }
        if low_key == high_key {
            assert forall|j: int| 0 <= j < cursors@.len() implies head(#[trigger] cursors@[j])
                == head(cursors@[0]) by {
                assert(low_key.upto(head(cursors@[j])));
                assert(low_key.upto(head(cursors@[0])));
            }
            return false;
        }
        let ghost before = cursors@;
        cursors[low].seek(&high_key);
        proof {
            let after = cursors@;
            let lag = before[low as int];
            let lead = before[high as int];
            assert(after =~= before.update(low as int, after[low as int]));
            assert(placed(lag) && placed(lead));
            assert(low_key.upto(head(lead)));
            assert(low_key.before(high_key));
            lemma_seek_pos_bounds(lag.source(), lag.position() + 1, high_key);
            lemma_total_left_update(before, low as int, after[low as int]);
            assert forall|j: int| 0 <= j < after.len() implies placed(#[trigger] after[j]) by {
                if j != low {
                    assert(placed(before[j]));
                }
            }
            lemma_total_left_nonneg(after);
            assert forall|p: Pair| in_all(after, p) <==> in_all(before, p) by {
                lemma_seek_keeps(lag.source(), lag.position(), high_key, p);
                if in_all(before, p) {
                    assert(holds(lead, p));
                    let m = choose|m: int|
                        lead.position() <= m < lead.source().len() && lead.source()[m] == p;
                    if lead.position() < m {
                        assert(lead.source()[lead.position()].before(lead.source()[m]));
                    }
                    assert(!p.before(high_key));
                    assert(holds(lag, p));
                    assert(holds(after[low as int], p));
                    assert forall|j: int| 0 <= j < after.len() implies holds(#[trigger] after[j], p) by {
                        if j != low {
                            assert(holds(before[j], p));
                        }
                    }
                }
                if in_all(after, p) {
                    assert(holds(after[low as int], p));
                    assert forall|j: int| 0 <= j < before.len() implies holds(#[trigger] before[j], p) by {
                        if j != low {
                            assert(holds(after[j], p));
                        }
                    }
                }
            }
        }
    }
}

/// A leapfrog join over one or more cursors. It walks like a cursor: it
/// stands on the least fact that every one of its cursors still holds, and
/// is exhausted when there is no such fact.
pub struct LeapJoin<I: Seekable> {
    cursors: Vec<I>,
    ended: bool,
}

impl<I: Seekable> LeapJoin<I> {
    /// The cursors that are joined, as they stand now.
    pub closed spec fn cursors(&self) -> Seq<I> {
        self.cursors@
    }

    /// No fact is left that every cursor holds.
    pub closed spec fn ended(&self) -> bool {
        self.ended
    }

    pub closed spec fn wf(&self) -> bool {
        &&& self.cursors@.len() >= 1
        &&& all_placed(self.cursors@)
        &&& (self.ended <==> exists|i: int|
            0 <= i < self.cursors@.len() && exhausted(#[trigger] self.cursors@[i]))
        &&& (!self.ended ==> forall|i: int|
            0 <= i < self.cursors@.len() ==> head(#[trigger] self.cursors@[i])
                == head(self.cursors@[0]))
    }

    /// `p` is still to come: every cursor holds it.
    pub open spec fn common(&self, p: Pair) -> bool {
        in_all(self.cursors(), p)
    }

    /// `p` is the least fact that is still to come.
    pub open spec fn least(&self, p: Pair) -> bool {
        self.common(p) && forall|q: Pair| self.common(q) ==> p.upto(q)
    }

    /// The facts that the cursors have not passed yet, all together.
    pub open spec fn left(&self) -> int {
        total_left(self.cursors())
    }

    /// The join is exhausted exactly when no fact is common to what its
    /// cursors still hold; otherwise it stands on the least such fact.
    pub proof fn lemma_standing(&self)
        requires
            self.wf(),
        ensures
            self.ended() <==> forall|p: Pair| !self.common(p),
            !self.ended() ==> self.least(head(self.cursors()[0])),
            self.cursors().len() >= 1,
            self.left() >= 0,
    {
        lemma_total_left_nonneg(self.cursors@);
        if self.ended {
            let i = choose|i: int|
                0 <= i < self.cursors@.len() && exhausted(#[trigger] self.cursors@[i]);
            assert forall|p: Pair| !self.common(p) by {
                if self.common(p) {
                    assert(holds(self.cursors@[i], p));
                }
            }
        } else {
            let first = head(self.cursors@[0]);
            assert forall|i: int| 0 <= i < self.cursors@.len() implies holds(#[trigger] self.cursors@[i], first) by {
                let c = self.cursors@[i];
                assert(placed(c) && !exhausted(c));
                assert(head(c) == first);
                assert(c.source()[c.position()] == first);
            }
            assert(self.common(first));
            assert forall|q: Pair| self.common(q) implies first.upto(q) by {
                let c = self.cursors@[0];
                assert(placed(c));
                assert(holds(c, q));
                let m = choose|m: int| c.position() <= m < c.source().len() && c.source()[m] == q;
                if c.position() < m {
                    assert(c.source()[c.position()].before(c.source()[m]));
                }
            }
        }
    }

    /// Joins the given cursors, each from where it stands.
    pub fn new(cursors: Vec<I>) -> (j: LeapJoin<I>)
        requires
            cursors@.len() >= 1,
            all_placed(cursors@),
        ensures
            j.wf(),
            forall|p: Pair| j.common(p) <==> in_all(cursors@, p),
    {
        let mut moving = cursors;
        let ended = settle(&mut moving);
        let ghost settled = moving@;
        let j = LeapJoin { cursors: moving, ended };
        assert(j.cursors@ == settled);
        j
    }

    pub fn at_end(&self) -> (b: bool)
        requires
            self.wf(),
        ensures
            b == self.ended(),
            b <==> forall|p: Pair| !self.common(p),
    {
        proof {
            self.lemma_standing();
        }
        self.ended
    }

    /// The least fact that every cursor still holds, or `None` if there is
    /// no fact that all of them hold.
    pub fn current(&self) -> (c: Option<Pair>)
        requires
            self.wf(),
        ensures
            c.is_none() <==> self.ended(),
            c.is_none() <==> forall|p: Pair| !self.common(p),
            c matches Some(p) ==> self.least(p),
    {
        proof {
            self.lemma_standing();
        }
        if self.ended {
            None
        } else {
            assert(!exhausted(self.cursors@[0]));
            self.cursors[0].current()
        }
    }

    /// Leaves the fact on which the join stands for the next greater one that
    /// every cursor holds, or for exhaustion.
    pub fn next(&mut self)
        requires
            old(self).wf(),
            !old(self).ended(),
        ensures
            final(self).wf(),
            forall|q: Pair| final(self).common(q) <==> old(self).common(q) && !old(self).least(q),
            0 <= final(self).left() < old(self).left(),
    {
        proof {
            self.lemma_standing();
        }
        let ghost start = self.cursors@;
        let ghost top = head(start[0]);
        assert(placed(start[0]) && !exhausted(start[0]));
        self.cursors[0].next();
        let ghost stepped = self.cursors@;
        proof {
            assert(stepped =~= start.update(0, stepped[0]));
            lemma_total_left_update(start, 0, stepped[0]);
            assert forall|j: int| 0 <= j < stepped.len() implies placed(#[trigger] stepped[j]) by {
                if j != 0 {
                    assert(placed(start[j]));
                }
            }
            assert forall|q: Pair| in_all(stepped, q) <==> in_all(start, q) && q != top by {
                let c = start[0];
                let d = stepped[0];
                if in_all(stepped, q) {
                    assert(holds(d, q));
                    let m = choose|m: int| d.position() <= m < d.source().len() && d.source()[m] == q;
                    assert(c.source()[c.position()].before(c.source()[m]));
                    assert(c.position() <= m < c.source().len() && c.source()[m] == q);
                    assert(holds(c, q));
                    assert forall|j: int| 0 <= j < start.len() implies holds(#[trigger] start[j], q) by {
                        if j != 0 {
                            assert(holds(stepped[j], q));
                        }
                    }
                }
                if in_all(start, q) && q != top {
                    assert(holds(c, q));
                    let m = choose|m: int| c.position() <= m < c.source().len() && c.source()[m] == q;
                    assert(m != c.position());
                    assert(d.position() <= m < d.source().len() && d.source()[m] == q);
                    assert(holds(d, q));
                    assert forall|j: int| 0 <= j < stepped.len() implies holds(#[trigger] stepped[j], q) by {
                        if j != 0 {
                            assert(holds(start[j], q));
                        }
                    }
                }
            }
        }
        let ended = settle(&mut self.cursors);
        self.ended = ended;
        proof {
            assert forall|q: Pair| final(self).common(q) <==> old(self).common(q) && !old(
                self,
            ).least(q) by {
                assert(in_all(self.cursors@, q) <==> in_all(stepped, q));
                assert(in_all(stepped, q) <==> in_all(start, q) && q != top);
                assert(old(self).least(top));
                if old(self).common(q) && old(self).least(q) {
                    assert(q.upto(top) && top.upto(q));
                }
            }
        }
    }

    /// Runs the join to its end and returns, in ascending order, every fact
    /// that all the cursors held when it was called.
    pub fn collect(self) -> (out: Vec<Pair>)
        requires
            self.wf(),
        ensures
            ascending(out@),
            forall|p: Pair| out@.contains(p) <==> self.common(p),
    {
        let mut join = self;
        let mut out: Vec<Pair> = Vec::new();
        proof {
            join.lemma_standing();
        }
        while !join.at_end()
            invariant
                join.wf(),
                ascending(out@),
                forall|p: Pair| self.common(p) <==> (out@.contains(p) || join.common(p)),
                forall|i: int, q: Pair|
                    #![trigger out@[i], join.common(q)]
                    0 <= i < out@.len() && join.common(q) ==> out@[i].before(q),
                join.left() >= 0,
            decreases join.left(),
        {
            let ghost was = join;
            let ghost prev = out@;
            let head = join.current();
            let p: Pair = head.unwrap();
            out.push(p);
            join.next();
            proof {
                assert(was.least(p));
                assert forall|a: int, b: int| 0 <= a < b < out@.len() implies (
                #[trigger] out@[a]).before(#[trigger] out@[b]) by {
                    if b < prev.len() {
                        assert(prev[a].before(prev[b]));
                    } else {
                        assert(prev[a].before(p));
                    }
                }
                assert forall|q: Pair| self.common(q) <==> (out@.contains(q) || join.common(
                    q,
                )) by {
                    assert(join.common(q) <==> was.common(q) && !was.least(q));
                    if out@.contains(q) {
                        let i = choose|i: int| 0 <= i < out@.len() && out@[i] == q;
                        if i < prev.len() {
                            assert(prev.contains(q));
                        } else {
                            assert(q == p);
                        }
                    }
                    if prev.contains(q) {
                        let i = choose|i: int| 0 <= i < prev.len() && prev[i] == q;
                        assert(out@[i] == q);
                    }
                    if was.common(q) && was.least(q) {
                        assert(q.upto(p) && p.upto(q));
                        assert(out@[prev.len() as int] == q);
                    }
                    if q == p {
                        assert(out@[prev.len() as int] == q);
                    }
                }
                assert forall|i: int, q: Pair|
                    #![trigger out@[i], join.common(q)]
                    0 <= i < out@.len() && join.common(q) implies out@[i].before(q) by {
                    assert(was.common(q) && !was.least(q));
                    if i < prev.len() {
                        assert(prev[i].before(q));
                    } else {
                        assert(p.upto(q));
                        if p == q {
                            assert(was.least(q));
                        }
                    }
                }
            }
        }
        out
    }
}

/// The leapfrog join of one or more ordered sets: every fact that all of
/// them hold, each once, in ascending order.
pub fn leapjoin(sets: &Vec<GroundSet>) -> (out: Vec<Pair>)
    requires
        sets@.len() >= 1,
        forall|i: int| 0 <= i < sets@.len() ==> (#[trigger] sets@[i]).wf(),
    ensures
        ascending(out@),
        forall|p: Pair|
            out@.contains(p) <==> forall|i: int|
                0 <= i < sets@.len() ==> (#[trigger] sets@[i])@.contains(p),
{
    let mut cursors: Vec<SetIter> = Vec::new();
    let mut i: usize = 0;
    while i < sets.len()
        invariant
            i <= sets@.len(),
            cursors@.len() == i,
            forall|j: int| 0 <= j < sets@.len() ==> (#[trigger] sets@[j]).wf(),
            forall|j: int|
                0 <= j < i ==> placed(#[trigger] cursors@[j]) && cursors@[j].source()
                    == sets@[j].seq() && cursors@[j].position() == 0,
        decreases sets@.len() - i,
    {
        cursors.push(SetIter::new(&sets[i]));
        i = i + 1;
    }
    let ghost fresh = cursors@;
    let join = LeapJoin::new(cursors);
    let ghost standing = join;
    let out = join.collect();
    proof {
        assert forall|p: Pair|
            out@.contains(p) <==> forall|i: int|
                0 <= i < sets@.len() ==> (#[trigger] sets@[i])@.contains(p) by {
            assert(out@.contains(p) <==> standing.common(p));
            assert(standing.common(p) <==> in_all(fresh, p));
            if in_all(fresh, p) {
                assert forall|i: int| 0 <= i < sets@.len() implies (#[trigger] sets@[i])@.contains(
                    p,
                ) by {
                    sets@[i].lemma_view();
                    assert(holds(fresh[i], p));
                }
            }
            if forall|i: int| 0 <= i < sets@.len() ==> (#[trigger] sets@[i])@.contains(p) {
                assert forall|i: int| 0 <= i < fresh.len() implies holds(#[trigger] fresh[i], p) by {
                    sets@[i].lemma_view();
                    assert(sets@[i]@.contains(p));
                    let m = choose|m: int| 0 <= m < sets@[i].seq().len() && sets@[i].seq()[m] == p;
                    assert(fresh[i].position() <= m < fresh[i].source().len()
                        && fresh[i].source()[m] == p);
                }
            }
        }
    }
    out
}

} // verus!
