use leapstore::atoms::AtomSet;
use leapstore::fact::Pair;
use leapstore::graph::Graph;
use leapstore::ground::GroundSet;

const A: u64 = 1;
const B: u64 = 2;
const C: u64 = 3;

#[test]
fn pair_order_is_lexicographic() {
    assert!(Pair::new(1, 9).precedes(&Pair::new(2, 0)));
    assert!(Pair::new(1, 1).precedes(&Pair::new(1, 2)));
    assert!(!Pair::new(1, 2).precedes(&Pair::new(1, 2)));
    assert!(!Pair::new(2, 0).precedes(&Pair::new(1, 9)));
    assert!(Pair::new(1, 9) < Pair::new(2, 0));
    assert_eq!(Pair::new(4, 5).subject(), 4);
    assert_eq!(Pair::new(4, 5).object(), 5);
}

#[test]
fn ground_set_keeps_order_and_drops_repeats() {
    let mut s = GroundSet::new();
    assert!(s.is_empty());
    assert!(s.insert(Pair::new(3, 1)));
    assert!(s.insert(Pair::new(1, 7)));
    assert!(s.insert(Pair::new(3, 0)));
    assert!(!s.insert(Pair::new(1, 7)));
    assert_eq!(s.len(), 3);
    assert_eq!(s.to_vec(), vec![Pair::new(1, 7), Pair::new(3, 0), Pair::new(3, 1)]);
    assert_eq!(s.get(1), Pair::new(3, 0));
    assert!(s.contains(&Pair::new(3, 1)));
    assert!(!s.contains(&Pair::new(2, 0)));
    assert_eq!(s.lower_bound(0, &Pair::new(2, 0)), 1);
    assert_eq!(s.lower_bound(2, &Pair::new(0, 0)), 2);
    assert_eq!(s.lower_bound(0, &Pair::new(9, 9)), 3);
    s.clear();
    assert!(s.is_empty());
}

#[test]
fn ground_set_append_and_difference() {
    let mut a = GroundSet::new();
    a.insert(Pair::new(1, 0));
    a.insert(Pair::new(4, 0));
    let mut b = GroundSet::new();
    b.insert(Pair::new(4, 0));
    b.insert(Pair::new(2, 0));
    let d = b.difference(&a);
    assert_eq!(d.to_vec(), vec![Pair::new(2, 0)]);
    a.append(&mut b);
    assert!(b.is_empty());
    assert_eq!(a.to_vec(), vec![Pair::new(1, 0), Pair::new(2, 0), Pair::new(4, 0)]);
}

#[test]
fn backlog_moves_to_delta_then_to_stable() {
    let mut set = AtomSet::new();
    set.derive(Pair::new(A, B));
    set.derive(Pair::new(A, C));
    assert!(set.stable().is_empty());
    assert!(set.delta().is_empty());

    assert!(set.changed());
    assert!(set.stable().is_empty());
    assert_eq!(set.delta().to_vec(), vec![Pair::new(A, B), Pair::new(A, C)]);
    assert!(set.backlog().is_empty());

    assert!(!set.changed());
    assert_eq!(set.stable().to_vec(), vec![Pair::new(A, B), Pair::new(A, C)]);
    assert!(set.delta().is_empty());
    assert!(set.backlog().is_empty());
}

#[test]
fn transition_takes_only_what_is_not_known() {
    let mut set = AtomSet::new();
    set.insert(Pair::new(1, 1));
    set.derive(Pair::new(2, 2));
    assert!(set.changed());
    // stable = {(1,1)}, delta = {(2,2)}
    set.derive(Pair::new(1, 1));
    set.derive(Pair::new(2, 2));
    set.derive(Pair::new(3, 3));
    assert!(set.changed());
    assert_eq!(set.stable().to_vec(), vec![Pair::new(1, 1), Pair::new(2, 2)]);
    assert_eq!(set.delta().to_vec(), vec![Pair::new(3, 3)]);
    assert!(set.backlog().is_empty());
}

#[test]
fn derived_fact_is_seen_one_round_late() {
    let mut set = AtomSet::new();
    let p = Pair::new(5, 6);
    set.derive(p);
    assert!(!set.knows(&p));
    assert!(!set.stable().contains(&p));
    assert!(!set.delta().contains(&p));
    set.changed();
    assert!(set.delta().contains(&p));
    assert!(!set.stable().contains(&p));
    assert!(set.knows(&p));
    set.derive(Pair::new(7, 8));
    set.changed();
    assert!(set.stable().contains(&p));
    assert!(!set.delta().contains(&p));
}

#[test]
fn nothing_new_means_no_change() {
    let mut set = AtomSet::new();
    set.insert(Pair::new(1, 1));
    set.derive(Pair::new(2, 2));
    set.changed();
    set.derive(Pair::new(1, 1));
    set.derive(Pair::new(2, 2));
    assert!(!set.changed());
    assert!(set.delta().is_empty());
    assert!(!set.changed());
    assert_eq!(set.stable().len(), 2);
}

#[test]
fn insert_says_whether_the_fact_was_new() {
    let mut set = AtomSet::new();
    assert!(set.insert(Pair::new(1, 2)));
    assert!(!set.insert(Pair::new(1, 2)));
    assert!(set.derive(Pair::new(1, 2)));
    assert!(!set.derive(Pair::new(1, 2)));
    assert!(!set.changed());
    assert_eq!(set.stable().to_vec(), vec![Pair::new(1, 2)]);
}

#[test]
fn store_makes_partitions_on_first_fact() {
    let mut g = Graph::new();
    assert_eq!(g.len(), 0);
    assert!(g.get(8).is_none());
    assert!(g.insert_fact(8, Pair::new(1, 2)));
    assert!(g.insert_fact(3, Pair::new(1, 2)));
    assert!(!g.insert_fact(8, Pair::new(1, 2)));
    assert!(g.insert_fact(8, Pair::new(0, 2)));
    assert_eq!(g.keys(), vec![3, 8]);
    assert_eq!(g.predicate_at(1), 8);
    let part = g.get(8).unwrap();
    assert_eq!(part.stable().to_vec(), vec![Pair::new(0, 2), Pair::new(1, 2)]);
    assert!(g.get(4).is_none());
}

#[test]
fn store_get_mut_and_insert() {
    let mut g = Graph::new();
    assert!(g.get_mut(1).is_none());
    let mut set = AtomSet::new();
    set.insert(Pair::new(1, 1));
    assert!(g.insert(1, set).is_none());
    g.get_mut(1).unwrap().insert(Pair::new(2, 2));
    assert_eq!(g.get(1).unwrap().stable().len(), 2);
    let old = g.insert(1, AtomSet::new()).unwrap();
    assert_eq!(old.stable().to_vec(), vec![Pair::new(1, 1), Pair::new(2, 2)]);
    assert!(g.get(1).unwrap().stable().is_empty());
    g.get_or_create_partition(0).derive(Pair::new(9, 9));
    assert_eq!(g.keys(), vec![0, 1]);
    assert_eq!(g.get(0).unwrap().backlog().len(), 1);
}

#[test]
fn store_round_reaches_the_fixpoint() {
    let mut g = Graph::new();
    g.insert_fact(1, Pair::new(1, 2));
    g.insert_fact(2, Pair::new(2, 3));
    assert!(g.derive_fact(2, Pair::new(1, 3)));
    assert!(g.derive_fact(1, Pair::new(1, 2)));
    assert!(g.advance());
    assert!(g.get(1).unwrap().delta().is_empty());
    assert_eq!(g.get(2).unwrap().delta().to_vec(), vec![Pair::new(1, 3)]);
    g.derive_fact(2, Pair::new(1, 3));
    assert!(!g.advance());
    assert_eq!(g.get(2).unwrap().stable().to_vec(), vec![Pair::new(1, 3), Pair::new(2, 3)]);
    assert!(!g.advance());
}
