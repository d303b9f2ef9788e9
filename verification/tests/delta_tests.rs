use lau_calm_crdt::crdt_state::{GSet, LWWRegister};
use lau_calm_crdt::delta::{DeltaCrdt, DeltaGCounter, DeltaGSet, DeltaLWWRegister, GCounterDelta};
use lau_calm_crdt::semilattice::BoundedJoinSemilattice;

#[test]
fn delta_gcounter_propagation() {
    let mut a = DeltaGCounter::new(2, 0);
    let mut b = DeltaGCounter::new(2, 1);
    a.inc();
    a.inc();
    b.inc();
    let delta = a.extract_delta();
    b.merge_delta(&delta);
    assert_eq!(b.value(), 3);
}

#[test]
fn delta_gcounter_empty_delta() {
    let mut a = DeltaGCounter::new(2, 0);
    let delta = a.extract_delta();
    assert!(delta.counts.iter().all(|&c| c == 0));
}

#[test]
fn delta_gset_propagation() {
    let mut a: DeltaGSet<&str> = DeltaGSet::new();
    let mut b: DeltaGSet<&str> = DeltaGSet::new();
    a.add("x");
    a.add("y");
    let delta = a.extract_delta();
    b.merge_delta(&delta);
    assert!(b.contains(&"x"));
    assert!(b.contains(&"y"));
}

#[test]
fn delta_gset_second_delta_empty() {
    let mut a: DeltaGSet<i32> = DeltaGSet::new();
    a.add(1);
    let _d1 = a.extract_delta();
    let d2 = a.extract_delta();
    assert!(d2.is_empty());
}

#[test]
fn delta_lww_register_propagation() {
    let mut a = DeltaLWWRegister::new();
    let mut b = DeltaLWWRegister::new();
    a.set("hello", 10);
    let delta = a.extract_delta();
    b.merge_delta(&delta);
    assert_eq!(b.get(), Some(&"hello"));
}

#[test]
fn delta_lww_register_older_ignored() {
    let mut a = DeltaLWWRegister::new();
    a.set("new", 10);
    a.set("old", 5);
    assert_eq!(a.get(), Some(&"new"));
}

#[test]
fn delta_gcounter_delta_holds_changed_counts() {
    let mut a = DeltaGCounter::new(3, 2);
    a.inc();
    let first = a.extract_delta();
    assert_eq!(first.counts, vec![0, 0, 1]);
    a.inc();
    a.inc();
    let second = a.extract_delta();
    assert_eq!(second.counts, vec![0, 0, 3]);
    assert_eq!(a.value(), 3);
    let joined = first.join(&second);
    assert_eq!(joined.counts, vec![0, 0, 3]);
    assert_eq!(GCounterDelta::bottom().counts, Vec::<u64>::new());
}

#[test]
fn delta_gcounter_every_delta_equals_full_sync() {
    let mut a = DeltaGCounter::new(2, 0);
    let mut b = DeltaGCounter::new(2, 1);
    a.inc();
    a.inc();
    b.inc();
    let d1 = a.extract_delta();
    b.merge_delta(&d1);
    assert_eq!(b.value(), 3);
    a.inc();
    let d2 = a.extract_delta();
    b.merge_delta(&d2);
    assert_eq!(b.value(), 4);
    assert_eq!(b.value(), b.join(&a).value());
    assert_eq!(b.replica_id, 1);
}

#[test]
fn delta_lww_register_ships_winning_write() {
    let mut a: DeltaLWWRegister<&str> = DeltaLWWRegister::new();
    a.set("new", 10);
    a.set("old", 5);
    let mut b: DeltaLWWRegister<&str> = DeltaLWWRegister::new();
    let d = a.extract_delta();
    b.merge_delta(&d);
    assert_eq!(b.get(), Some(&"new"));
    assert_eq!(b.get(), a.get());
}

#[test]
fn delta_gcounter_from_delta() {
    let d = GCounterDelta { counts: vec![3, 4] };
    let c = DeltaGCounter::from_delta(d);
    assert_eq!(c.value(), 7);
    assert_eq!(c.replica_id, 0);
    assert_eq!(c.inner.n, 2);
}

#[test]
fn delta_gset_from_and_join_drops_pending() {
    let mut g: GSet<u64> = GSet::new();
    g.add(5);
    let s = DeltaGSet::from_delta(g);
    assert!(s.contains(&5));
    let mut t: DeltaGSet<u64> = DeltaGSet::new();
    t.add(6);
    let mut j = s.join(&t);
    assert!(j.contains(&5) && j.contains(&6));
    assert!(j.extract_delta().is_empty());
}

#[test]
fn delta_lww_register_empty_extract() {
    let mut a: DeltaLWWRegister<u64> = DeltaLWWRegister::new();
    let d = a.extract_delta();
    assert_eq!(d, LWWRegister::new());
    a.set(3, 2);
    let d = a.extract_delta();
    assert_eq!(d.get(), Some(&3));
    assert_eq!(d.timestamp, 2);
    let again = a.extract_delta();
    assert_eq!(again.get(), None);
}

#[test]
fn extracted_deltas_are_below_the_state() {
    let mut c = DeltaGCounter::new(2, 1);
    c.inc();
    c.inc();
    let counts = c.inner.counts.0.clone();
    let d = c.extract_delta();
    let full = GCounterDelta { counts };
    assert!(d.leq(&full));

    let mut s: DeltaGSet<u64> = DeltaGSet::new();
    s.add(1);
    s.add(2);
    let ds = s.extract_delta();
    assert!(ds.contains(&1) && ds.contains(&2));

    let mut r: DeltaLWWRegister<u64> = DeltaLWWRegister::new();
    r.set(5, 9);
    r.set(6, 3);
    let inner = r.inner.clone();
    let dr = r.extract_delta();
    assert!(dr.leq(&inner));
    assert_eq!(r.get(), Some(&5));
}
