//! One predicate's facts in their three stages, and the semi-naive step that
//! moves them from one stage to the next.

use crate::fact::Pair;
use crate::ground::GroundSet;
use vstd::prelude::*;

verus! {

/// The three sets of one predicate, as sets of facts.
pub struct Staging {
    /// Facts that are settled.
    pub stable: Set<Pair>,
    /// Facts that became known in the round before this one.
    pub delta: Set<Pair>,
    /// Facts derived in this round, not yet held against what is known.
    pub backlog: Set<Pair>,
}

impl Staging {
    /// Everything that is known at this point: what a rule reads.
    pub open spec fn known(self) -> Set<Pair> {
        self.stable.union(self.delta)
    }

    /// The state with `p` added to the settled facts.
    pub open spec fn ingest(self, p: Pair) -> Staging {
        Staging { stable: self.stable.insert(p), delta: self.delta, backlog: self.backlog }
    }

    /// The state with `p` added to the facts derived in this round.
    pub open spec fn deposit(self, p: Pair) -> Staging {
        Staging { stable: self.stable, delta: self.delta, backlog: self.backlog.insert(p) }
    }

    /// The state after one semi-naive step: `delta` joins `stable`, what of
    /// `backlog` is not known by then becomes `delta`, and `backlog` is empty.
    pub open spec fn advance(self) -> Staging {
        Staging {
            stable: self.known(),
            delta: self.backlog.difference(self.known()),
            backlog: Set::empty(),
        }
    }

    /// The step leaves something new in `delta`.
    pub open spec fn advances(self) -> bool {
        exists|p: Pair| self.backlog.contains(p) && !self.known().contains(p)
    }
}

/// The facts of one predicate: `stable`, `delta` and `backlog`.
pub struct AtomSet {
    stable: GroundSet,
    delta: GroundSet,
    backlog: GroundSet,
}

impl View for AtomSet {
    type V = Staging;

    closed spec fn view(&self) -> Staging {
        Staging { stable: self.stable@, delta: self.delta@, backlog: self.backlog@ }
    }
}

impl AtomSet {
    pub closed spec fn wf(&self) -> bool {
        self.stable.wf() && self.delta.wf() && self.backlog.wf()
    }

    pub fn new() -> (s: AtomSet)
        ensures
            s.wf(),
            s@.stable == Set::<Pair>::empty(),
            s@.delta == Set::<Pair>::empty(),
            s@.backlog == Set::<Pair>::empty(),
    {
        AtomSet { stable: GroundSet::new(), delta: GroundSet::new(), backlog: GroundSet::new() }
    }

    /// Puts a ground fact straight into `stable`, and says whether it was new
    /// there.
    pub fn insert(&mut self, pair: Pair) -> (fresh: bool)
        requires
            old(self).wf(),
        ensures
            final(self).wf(),
            final(self)@ == old(self)@.ingest(pair),
            fresh == !old(self)@.stable.contains(pair),
    {
        self.stable.insert(pair)
    }

    /// Puts a derived fact into `backlog`, and says whether it was new there.
    pub fn derive(&mut self, pair: Pair) -> (fresh: bool)
        requires
            old(self).wf(),
        ensures
            final(self).wf(),
            final(self)@ == old(self)@.deposit(pair),
            fresh == !old(self)@.backlog.contains(pair),
    {
        self.backlog.insert(pair)
    }

    /// The staging transition: merges `delta` into `stable`, makes the facts
    /// of `backlog` that are not known by then the new `delta`, clears
    /// `backlog`, and says whether the new `delta` holds anything.
    pub fn changed(&mut self) -> (moved: bool)
        requires
            old(self).wf(),
        ensures
            final(self).wf(),
            final(self)@ == old(self)@.advance(),
            moved == old(self)@.advances(),
            moved == (final(self)@.delta != Set::<Pair>::empty()),
    {
        self.stable.append(&mut self.delta);
        self.delta = self.backlog.difference(&self.stable);
        self.backlog = GroundSet::new();
        let none = self.delta.is_empty();
        proof {
            let before = old(self)@;
            let new = before.backlog.difference(before.known());
            assert(self.delta@ == new);
            if before.advances() {
                let p = choose|p: Pair| before.backlog.contains(p) && !before.known().contains(p);
                assert(new.contains(p));
            }
            if new != Set::<Pair>::empty() {
                assert(!(new =~= Set::<Pair>::empty()));
                let p = choose|p: Pair| new.contains(p);
                assert(before.backlog.contains(p) && !before.known().contains(p));
            }
        }
        !none
    }

    /// Whether `pair` is known: held by `stable` or by `delta`.
    pub fn knows(&self, pair: &Pair) -> (b: bool)
        requires
            self.wf(),
        ensures
            b == self@.known().contains(*pair),
    {
        self.stable.contains(pair) || self.delta.contains(pair)
    }

    /// The settled facts.
    pub fn stable(&self) -> (s: &GroundSet)
        requires
            self.wf(),
        ensures
            s.wf(),
            s@ == self@.stable,
    {
        &self.stable
    }

    /// The facts that became known in the round before this one.
    pub fn delta(&self) -> (s: &GroundSet)
        requires
            self.wf(),
        ensures
            s.wf(),
            s@ == self@.delta,
    {
        &self.delta
    }

    /// The facts derived in this round.
    pub fn backlog(&self) -> (s: &GroundSet)
        requires
            self.wf(),
        ensures
            s.wf(),
            s@ == self@.backlog,
    {
        &self.backlog
    }
}

/// A fact that is not known yet and is derived in some round is still
/// neither in `stable` nor in `delta` when that round ends; the step that
/// closes the round puts it in `delta` and not in `stable`; and the step that
/// closes the next round, whatever that round derived, puts it in `stable`.
pub proof fn lemma_visibility_lag(s: Staging, p: Pair, later: Set<Pair>)
    requires
        !s.known().contains(p),
    ensures
        !s.deposit(p).stable.contains(p),
        !s.deposit(p).delta.contains(p),
        s.deposit(p).advance().delta.contains(p),
        !s.deposit(p).advance().stable.contains(p),
        (Staging { backlog: later, ..s.deposit(p).advance() }).advance().stable.contains(p),
{
}

/// A step never drops a settled fact, and what was known stays known.
pub proof fn lemma_stable_grows(s: Staging)
    ensures
        s.stable.subset_of(s.advance().stable),
        s.known().subset_of(s.advance().known()),
{
}

/// If a round derived nothing but what was known already, the step that
/// closes it leaves `delta` empty and reports no change.
pub proof fn lemma_fixpoint(s: Staging)
    requires
        s.backlog.subset_of(s.known()),
    ensures
        !s.advances(),
        s.advance().delta == Set::<Pair>::empty(),
        s.advance().backlog == Set::<Pair>::empty(),
{
    assert(s.advance().delta =~= Set::<Pair>::empty());
}

/// Once nothing changes, nothing changes again: after a step that reports no
/// change, with nothing derived since, the next step reports none either and
/// leaves the state as it is.
pub proof fn lemma_quiescent(s: Staging)
    requires
        !s.advances(),
    ensures
        !s.advance().advances(),
        s.advance().advance().stable == s.advance().stable,
{
    assert(s.advance().delta =~= Set::<Pair>::empty()) by {
        assert forall|p: Pair| !s.advance().delta.contains(p) by {
            if s.advance().delta.contains(p) {
                assert(s.backlog.contains(p) && !s.known().contains(p));
            }
        }
    }
    assert(s.advance().advance().stable =~= s.advance().stable);
}

} // verus!
