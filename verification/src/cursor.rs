//! The seekable cursor over one ordered set of facts.

use crate::fact::{ascending, Pair};
use crate::ground::{lemma_seek_pos_bounds, seek_pos, GroundSet};
use vstd::prelude::*;

verus! {

/// What a leapfrog join asks of a cursor: it walks an ascending sequence of
/// facts forward, reports the fact it stands on, steps, and seeks.
pub trait Seekable: Sized {
    /// The facts that the cursor walks, ascending.
    spec fn source(&self) -> Seq<Pair>;

    /// The index in `source` at which the cursor stands.
    spec fn position(&self) -> int;

    /// Whether the cursor is past the last fact.
    fn at_end(&self) -> (b: bool)
        requires
            ascending(self.source()),
            0 <= self.position() <= self.source().len(),
        ensures
            b == (self.position() == self.source().len()),
    ;

    /// The fact under the cursor, or `None` once the cursor is exhausted.
    fn current(&self) -> (c: Option<Pair>)
        requires
            ascending(self.source()),
            0 <= self.position() <= self.source().len(),
        ensures
            self.position() == self.source().len() ==> c.is_none(),
            self.position() < self.source().len() ==> c == Some(self.source()[self.position()]),
    ;

    /// Steps to the next greater fact, or to exhaustion after the last one.
    fn next(&mut self)
        requires
            ascending(old(self).source()),
            0 <= old(self).position() <= old(self).source().len(),
            old(self).position() < old(self).source().len(),
        ensures
            0 <= final(self).position() <= final(self).source().len(),
            final(self).source() == old(self).source(),
            final(self).position() == old(self).position() + 1,
    ;

    /// Moves forward to the least fact that does not precede `target`, or to
    /// exhaustion if there is none. Stays where it is if the fact under the
    /// cursor already does not precede `target`.
    fn seek(&mut self, target: &Pair)
        requires
            ascending(old(self).source()),
            0 <= old(self).position() <= old(self).source().len(),
        ensures
            0 <= final(self).position() <= final(self).source().len(),
            final(self).source() == old(self).source(),
            final(self).position() == seek_pos(
                old(self).source(),
                old(self).position(),
                *target,
            ),
            final(self).position() >= old(self).position(),
    ;
}

/// The cursor walks an ascending sequence and stands inside it or at its end.
pub open spec fn placed<I: Seekable>(it: I) -> bool {
    &&& ascending(it.source())
    &&& 0 <= it.position() <= it.source().len()
}

/// The cursor is past the last fact.
pub open spec fn exhausted<I: Seekable>(it: I) -> bool {
    it.position() == it.source().len()
}

/// The fact under a cursor that is not exhausted.
pub open spec fn head<I: Seekable>(it: I) -> Pair {
    it.source()[it.position()]
}

/// How many facts stand at and after the cursor.
pub open spec fn left<I: Seekable>(it: I) -> int {
    it.source().len() - it.position()
}

/// `p` stands at or after the cursor.
pub open spec fn holds<I: Seekable>(it: I, p: Pair) -> bool {
    exists|k: int| it.position() <= k < it.source().len() && it.source()[k] == p
}

/// A forward-only cursor over one ordered set of facts. It reads the set and
/// never changes it; only its own position moves.
#[derive(Clone, Copy)]
pub struct SetIter<'a> {
    set: &'a GroundSet,
    pos: usize,
}

impl<'a> SetIter<'a> {
    /// A cursor at the first fact of `set`.
    pub fn new(set: &'a GroundSet) -> (it: SetIter<'a>)
        requires
            set.wf(),
        ensures
            placed(it),
            it.source() == set.seq(),
            it.position() == 0,
    {
        SetIter { set, pos: 0 }
    }
}

impl<'a> Seekable for SetIter<'a> {
    closed spec fn source(&self) -> Seq<Pair> {
        self.set.seq()
    }

    closed spec fn position(&self) -> int {
        self.pos as int
    }

    fn at_end(&self) -> (b: bool) {
        self.pos == self.set.len()
    }

    fn current(&self) -> (c: Option<Pair>) {
        if self.pos < self.set.len() {
            Some(self.set.get(self.pos))
        } else {
            None
        }
    }

    fn next(&mut self) {
        let n: usize = self.set.len();
        assert(self.pos < n);
        self.pos = self.pos + 1;
    }

    fn seek(&mut self, target: &Pair) {
        proof {
            lemma_seek_pos_bounds(self.source(), self.position(), *target);
        }
        self.pos = self.set.lower_bound(self.pos, target);
    }
}

/// Seeks with non-decreasing targets give non-decreasing positions: a second
/// seek, for a target that is not below the first, comes to rest at or after
/// where the first one did, and where it would have come to rest alone.
pub proof fn lemma_seek_monotone(s: Seq<Pair>, from: int, t1: Pair, t2: Pair)
    requires
        ascending(s),
        0 <= from <= s.len(),
        t1.upto(t2),
    ensures
        from <= seek_pos(s, from, t1) <= seek_pos(s, seek_pos(s, from, t1), t2),
        seek_pos(s, from, t1) <= seek_pos(s, from, t2),
        seek_pos(s, seek_pos(s, from, t1), t2) == seek_pos(s, from, t2),
{
    let p1 = seek_pos(s, from, t1);
    lemma_seek_pos_bounds(s, from, t1);
    lemma_seek_pos_bounds(s, p1, t2);
    let p2 = seek_pos(s, p1, t2);
    assert forall|k: int| from <= k < p2 implies (#[trigger] s[k]).before(t2) by {
        if k < p1 {
            assert(s[k].before(t1));
        }
    }
    crate::ground::lemma_seek_pos_is(s, from, t2, p2);
}

/// Where a cursor that starts at `from` stands after seeking each of
/// `targets` in turn.
pub open spec fn seek_each(s: Seq<Pair>, from: int, targets: Seq<Pair>) -> int
    decreases targets.len(),
{
    if targets.len() == 0 {
        from
    } else {
        seek_pos(s, seek_each(s, from, targets.drop_last()), targets.last())
    }
}

/// Over any run of seeks the cursor's positions never fall: after the first
/// `j` seeks it stands at or after where it stood after the first `i`, and
/// never past the end. Where the targets do not fall either, each position
/// is the one that a single seek for the latest target would have reached.
pub proof fn lemma_seeks_rise(s: Seq<Pair>, from: int, targets: Seq<Pair>, i: int, j: int)
    requires
        ascending(s),
        0 <= from <= s.len(),
        0 <= i <= j <= targets.len(),
    ensures
        from <= seek_each(s, from, targets.take(i)) <= seek_each(s, from, targets.take(j))
            <= s.len(),
        (forall|a: int, b: int|
            0 <= a <= b < targets.len() ==> (#[trigger] targets[a]).upto(#[trigger] targets[b]))
            && j > 0 ==> seek_each(s, from, targets.take(j)) == seek_pos(s, from, targets[j - 1]),
    decreases j,
{
    if j == 0 {
        assert(targets.take(0).len() == 0);
    } else {
        let front = targets.take(j - 1);
        assert(targets.take(j).drop_last() =~= front);
        assert(targets.take(j).last() == targets[j - 1]);
        lemma_seeks_rise(s, from, targets, if i < j { i } else { j - 1 }, j - 1);
        let before = seek_each(s, from, front);
        lemma_seek_pos_bounds(s, before, targets[j - 1]);
        if (forall|a: int, b: int|
            0 <= a <= b < targets.len() ==> (#[trigger] targets[a]).upto(#[trigger] targets[b])) {
            if j > 1 {
                assert(targets[j - 2].upto(targets[j - 1]));
                lemma_seek_monotone(s, from, targets[j - 2], targets[j - 1]);
            }
        }
    }
}

/// Seeking the same target twice in a row leaves the cursor where the first
/// seek put it.
pub proof fn lemma_seek_idempotent(s: Seq<Pair>, from: int, target: Pair)
    requires
        0 <= from <= s.len(),
    ensures
        seek_pos(s, seek_pos(s, from, target), target) == seek_pos(s, from, target),
{
    lemma_seek_pos_bounds(s, from, target);
}

/// A seek is a no-op where the cursor is exhausted or its fact does not
/// precede the target.
pub proof fn lemma_seek_noop(s: Seq<Pair>, from: int, target: Pair)
    requires
        0 <= from <= s.len(),
        from == s.len() || !s[from].before(target),
    ensures
        seek_pos(s, from, target) == from,
{
}

/// A seek drops exactly the facts that precede the target: what the cursor
/// holds afterwards is what it held before and does not precede the target.
pub proof fn lemma_seek_keeps(s: Seq<Pair>, from: int, target: Pair, p: Pair)
    requires
        ascending(s),
        0 <= from <= s.len(),
    ensures
        (exists|k: int| seek_pos(s, from, target) <= k < s.len() && s[k] == p) <==> (exists|k: int|
            from <= k < s.len() && s[k] == p) && !p.before(target),
{
    let r = seek_pos(s, from, target);
    lemma_seek_pos_bounds(s, from, target);
    if exists|k: int| r <= k < s.len() && s[k] == p {
        let k = choose|k: int| r <= k < s.len() && s[k] == p;
        assert(from <= k < s.len() && s[k] == p);
        if r < k {
            assert(s[r].before(s[k]));
        }
    }
    if (exists|k: int| from <= k < s.len() && s[k] == p) && !p.before(target) {
        let k = choose|k: int| from <= k < s.len() && s[k] == p;
        if k < r {
            assert(s[k].before(target));
        }
        assert(r <= k < s.len() && s[k] == p);
    }
}

} // verus!
