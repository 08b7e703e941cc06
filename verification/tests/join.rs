use leapstore::cursor::{Seekable, SetIter};
use leapstore::fact::Pair;
use leapstore::ground::GroundSet;
use leapstore::join::{leapjoin, LeapJoin};

fn keys(ks: &[u64]) -> GroundSet {
    let mut s = GroundSet::new();
    for k in ks {
        s.insert(Pair::new(*k, 0));
    }
    s
}

fn subjects(v: &[Pair]) -> Vec<u64> {
    v.iter().map(|p| p.subject()).collect()
}

#[test]
fn join_of_two_overlapping_sets() {
    let sets = vec![keys(&[1, 3, 5, 7]), keys(&[3, 4, 5, 9])];
    let out = leapjoin(&sets);
    assert_eq!(subjects(&out), vec![3, 5]);
    assert_eq!(out, vec![Pair::new(3, 0), Pair::new(5, 0)]);
}

#[test]
fn join_of_disjoint_sets_is_empty() {
    let sets = vec![keys(&[1, 2]), keys(&[3, 4])];
    assert_eq!(leapjoin(&sets), Vec::<Pair>::new());
}

#[test]
fn join_of_one_set_is_a_scan() {
    let sets = vec![keys(&[9, 2, 4, 2])];
    assert_eq!(subjects(&leapjoin(&sets)), vec![2, 4, 9]);
}

#[test]
fn join_with_an_empty_set_is_empty() {
    let sets = vec![keys(&[1, 2, 3]), keys(&[]), keys(&[2])];
    assert!(leapjoin(&sets).is_empty());
}

#[test]
fn join_of_three_sets() {
    let sets = vec![
        keys(&[0, 2, 4, 6, 8, 10, 12]),
        keys(&[0, 3, 6, 9, 12]),
        keys(&[1, 6, 7, 12, 13]),
    ];
    assert_eq!(subjects(&leapjoin(&sets)), vec![6, 12]);
}

#[test]
fn join_compares_whole_facts() {
    let mut a = GroundSet::new();
    a.insert(Pair::new(1, 10));
    a.insert(Pair::new(1, 11));
    a.insert(Pair::new(2, 10));
    let mut b = GroundSet::new();
    b.insert(Pair::new(1, 11));
    b.insert(Pair::new(2, 11));
    assert_eq!(leapjoin(&vec![a, b]), vec![Pair::new(1, 11)]);
}

#[test]
fn join_is_a_cursor_itself() {
    let a = keys(&[1, 3, 5, 7]);
    let b = keys(&[3, 4, 5, 9]);
    let mut join = LeapJoin::new(vec![SetIter::new(&a), SetIter::new(&b)]);
    assert!(!join.at_end());
    assert_eq!(join.current(), Some(Pair::new(3, 0)));
    join.next();
    assert_eq!(join.current(), Some(Pair::new(5, 0)));
    join.next();
    assert!(join.at_end());
    assert_eq!(join.current(), None);
}

#[test]
fn join_starts_where_its_cursors_stand() {
    let a = keys(&[1, 3, 5, 7]);
    let b = keys(&[1, 3, 5, 7]);
    let mut first = SetIter::new(&a);
    first.seek(&Pair::new(4, 0));
    let join = LeapJoin::new(vec![first, SetIter::new(&b)]);
    assert_eq!(subjects(&join.collect()), vec![5, 7]);
}

#[test]
fn join_with_an_exhausted_cursor_is_empty() {
    let a = keys(&[1, 2]);
    let b = keys(&[1, 2]);
    let mut spent = SetIter::new(&a);
    spent.seek(&Pair::new(3, 0));
    assert!(spent.at_end());
    let join = LeapJoin::new(vec![spent, SetIter::new(&b)]);
    assert!(join.at_end());
    assert!(join.collect().is_empty());
}

#[test]
fn cursor_walks_in_ascending_order() {
    let s = keys(&[5, 1, 3]);
    let mut it = SetIter::new(&s);
    assert_eq!(it.current(), Some(Pair::new(1, 0)));
    it.next();
    assert_eq!(it.current(), Some(Pair::new(3, 0)));
    it.next();
    assert_eq!(it.current(), Some(Pair::new(5, 0)));
    assert!(!it.at_end());
    it.next();
    assert!(it.at_end());
    assert_eq!(it.current(), None);
}

#[test]
fn seek_finds_the_least_fact_not_below_the_target() {
    let s = keys(&[1, 3, 5, 7]);
    let mut it = SetIter::new(&s);
    it.seek(&Pair::new(4, 0));
    assert_eq!(it.current(), Some(Pair::new(5, 0)));
    it.seek(&Pair::new(5, 0));
    assert_eq!(it.current(), Some(Pair::new(5, 0)));
    it.seek(&Pair::new(8, 0));
    assert_eq!(it.current(), None);
}

#[test]
fn seek_never_moves_backward() {
    let s = keys(&[1, 3, 5, 7]);
    let mut it = SetIter::new(&s);
    it.seek(&Pair::new(6, 0));
    assert_eq!(it.current(), Some(Pair::new(7, 0)));
    it.seek(&Pair::new(2, 0));
    assert_eq!(it.current(), Some(Pair::new(7, 0)));
}

#[test]
fn seek_positions_rise_with_the_targets() {
    let s = keys(&[2, 4, 6, 8, 10]);
    let mut it = SetIter::new(&s);
    let mut last = it.current();
    for t in [0u64, 2, 3, 3, 7, 7, 10, 11] {
        it.seek(&Pair::new(t, 0));
        let here = it.current();
        match (last, here) {
            (Some(a), Some(b)) => assert!(a <= b),
            (None, Some(_)) => panic!("the cursor came back"),
            _ => {}
        }
        last = here;
    }
    assert_eq!(last, None);
}

#[test]
fn seek_twice_is_seek_once() {
    let s = keys(&[2, 4, 6]);
    let mut it = SetIter::new(&s);
    it.seek(&Pair::new(3, 0));
    let once = it.current();
    it.seek(&Pair::new(3, 0));
    assert_eq!(it.current(), once);
    assert_eq!(once, Some(Pair::new(4, 0)));
}

#[test]
fn seek_orders_by_subject_then_object() {
    let mut s = GroundSet::new();
    s.insert(Pair::new(1, 5));
    s.insert(Pair::new(1, 9));
    s.insert(Pair::new(2, 0));
    let mut it = SetIter::new(&s);
    it.seek(&Pair::new(1, 6));
    assert_eq!(it.current(), Some(Pair::new(1, 9)));
    it.seek(&Pair::new(1, 10));
    assert_eq!(it.current(), Some(Pair::new(2, 0)));
}

#[test]
fn subjects_are_the_keys_of_a_set() {
    let mut a = GroundSet::new();
    assert!(a.subjects().is_empty());
    a.insert(Pair::new(1, 10));
    a.insert(Pair::new(1, 11));
    a.insert(Pair::new(2, 0));
    a.insert(Pair::new(4, 1));
    assert_eq!(
        a.subjects().to_vec(),
        vec![Pair::new(1, 0), Pair::new(2, 0), Pair::new(4, 0)]
    );
}

#[test]
fn join_on_subjects_then_seek_the_facts() {
    let mut a = GroundSet::new();
    a.insert(Pair::new(1, 10));
    a.insert(Pair::new(2, 10));
    a.insert(Pair::new(4, 1));
    let mut b = GroundSet::new();
    b.insert(Pair::new(2, 7));
    b.insert(Pair::new(3, 1));
    b.insert(Pair::new(4, 9));
    b.insert(Pair::new(4, 10));
    let keys = leapjoin(&vec![a.subjects(), b.subjects()]);
    assert_eq!(keys, vec![Pair::new(2, 0), Pair::new(4, 0)]);
    let mut it = SetIter::new(&b);
    it.seek(&keys[1]);
    assert_eq!(it.current(), Some(Pair::new(4, 9)));
    it.next();
    assert_eq!(it.current(), Some(Pair::new(4, 10)));
}
