use lau_calm_crdt::crdt_state::{GCounter, GSet, LWWElementSet, LWWRegister, ORSet, PNCounter};
use lau_calm_crdt::semilattice::BoundedJoinSemilattice;

#[test]
fn gcounter_increment_and_merge() {
    let mut a = GCounter::new(3);
    let mut b = GCounter::new(3);
    a.inc(0);
    a.inc(0);
    b.inc(1);
    b.inc(1);
    b.inc(1);
    assert_eq!(a.join(&b).value(), 5);
}

#[test]
fn gcounter_idempotent_merge() {
    let mut a = GCounter::new(2);
    a.inc(0);
    a.inc(1);
    assert_eq!(a.join(&a), a);
}

#[test]
fn pncounter_inc_dec() {
    let mut c = PNCounter::new(2);
    c.inc(0);
    c.inc(0);
    c.dec(1);
    assert_eq!(c.value(), 1);
}

#[test]
fn pncounter_merge() {
    let mut a = PNCounter::new(2);
    let mut b = PNCounter::new(2);
    a.inc(0);
    b.dec(1);
    assert_eq!(a.join(&b).value(), 0);
}

#[test]
fn gset_add_and_merge() {
    let mut a: GSet<&str> = GSet::new();
    let mut b: GSet<&str> = GSet::new();
    a.add("hello");
    b.add("world");
    let m = a.join(&b);
    assert!(m.contains(&"hello"));
    assert!(m.contains(&"world"));
}

#[test]
fn gset_idempotent() {
    let mut a: GSet<i32> = GSet::new();
    a.add(1);
    a.add(1);
    assert_eq!(a.len(), 1);
}

#[test]
fn orset_add_remove() {
    let mut s: ORSet<&str> = ORSet::new();
    s.add("x");
    assert!(s.contains(&"x"));
    s.remove(&"x");
    assert!(!s.contains(&"x"));
}

#[test]
fn orset_merge_concurrent_add() {
    let mut a: ORSet<&str> = ORSet::new();
    let mut b: ORSet<&str> = ORSet::new();
    a.add("x");
    b.add("x");
    assert!(a.join(&b).contains(&"x"));
}

#[test]
fn lww_register_latest_wins() {
    let mut r: LWWRegister<&str> = LWWRegister::new();
    r.set("alice", 1);
    r.set("bob", 5);
    assert_eq!(r.get(), Some(&"bob"));
    r.set("charlie", 3);
    assert_eq!(r.get(), Some(&"bob"));
}

#[test]
fn lww_register_merge() {
    let mut a: LWWRegister<&str> = LWWRegister::new();
    let mut b: LWWRegister<&str> = LWWRegister::new();
    a.set("alice", 10);
    b.set("bob", 20);
    assert_eq!(a.join(&b).get(), Some(&"bob"));
}

#[test]
fn lww_element_set_add_remove() {
    let mut s: LWWElementSet<&str> = LWWElementSet::new();
    s.add("x", 1);
    assert!(s.contains(&"x"));
    s.remove("x", 5);
    assert!(!s.contains(&"x"));
}

#[test]
fn lww_element_set_merge() {
    let mut a: LWWElementSet<String> = LWWElementSet::new();
    let mut b: LWWElementSet<String> = LWWElementSet::new();
    a.add("x".to_string(), 1);
    b.remove("x".to_string(), 5);
    assert!(!a.join(&b).contains(&"x".to_string()));
}

#[test]
fn gcounter_read_and_dimensions() {
    let mut a = GCounter::new(2);
    a.inc(1);
    let mut b = GCounter::new(4);
    b.inc(3);
    let j = a.join(&b);
    assert_eq!(j.n, 4);
    assert_eq!(j.read(1), 1);
    assert_eq!(j.read(3), 1);
    assert_eq!(j.value(), 2);
}

#[test]
fn pncounter_negative_value() {
    let mut c = PNCounter::new(3);
    c.dec(0);
    c.dec(2);
    c.inc(1);
    assert_eq!(c.value(), -1);
}

#[test]
fn gset_elements_and_empty() {
    let mut s: GSet<u64> = GSet::new();
    assert!(s.is_empty());
    s.add(3);
    s.add(5);
    s.add(3);
    assert!(!s.is_empty());
    assert_eq!(s.len(), 2);
    let mut e = s.elements().clone();
    e.sort();
    assert_eq!(e, vec![3, 5]);
}

#[test]
fn orset_add_wins_over_unseen_remove() {
    let mut a: ORSet<u64> = ORSet::new();
    a.add(7);
    let mut b = a.copy_state();
    b.remove(&7);
    a.add(7);
    let merged = a.join(&b);
    assert!(merged.contains(&7));
    let mut removed_everywhere = b.join(&b);
    assert!(!removed_everywhere.contains(&7));
    removed_everywhere.add(7);
    assert!(removed_everywhere.contains(&7));
}

#[test]
fn orset_elements_lists_live_elements() {
    let mut s: ORSet<u64> = ORSet::new();
    s.add(1);
    s.add(2);
    s.remove(&1);
    let elems: Vec<u64> = s.elements().into_iter().copied().collect();
    assert_eq!(elems, vec![2]);
}

#[test]
fn lww_register_tie_breaks_by_value() {
    let mut a: LWWRegister<u64> = LWWRegister::new();
    let mut b: LWWRegister<u64> = LWWRegister::new();
    a.set(1, 4);
    b.set(2, 4);
    assert_eq!(a.join(&b).get(), Some(&2));
    assert_eq!(b.join(&a).get(), Some(&2));
    assert_eq!(a.join(&b), b.join(&a));
    let mut c: LWWRegister<&str> = LWWRegister::new();
    let mut d: LWWRegister<&str> = LWWRegister::new();
    c.set("alice", 5);
    d.set("bob", 5);
    assert_eq!(c.join(&d), d.join(&c));
    assert_eq!(c.join(&d).get(), Some(&"bob"));
}

#[test]
fn orset_concurrent_add_wins_across_replicas() {
    let mut a: ORSet<&str> = ORSet::with_replica(1);
    let mut b: ORSet<&str> = ORSet::with_replica(2);
    assert_eq!(a.add("x"), (1, 0));
    assert_eq!(b.add("x"), (2, 0));
    b.remove(&"x");
    assert!(a.join(&b).contains(&"x"));
    assert!(b.join(&a).contains(&"x"));
}

#[test]
fn lww_element_set_readd_after_remove() {
    let mut s: LWWElementSet<u64> = LWWElementSet::new();
    s.add(9, 1);
    s.remove(9, 2);
    assert!(!s.contains(&9));
    s.add(9, 3);
    assert!(s.contains(&9));
    assert_eq!(s.elements(), vec![&9]);
    let mut t: LWWElementSet<u64> = LWWElementSet::new();
    t.add(4, 5);
    t.remove(4, 5);
    assert!(!t.contains(&4));
}

#[test]
fn gset_of_str_rejects_other_strings() {
    let mut s: GSet<&str> = GSet::new();
    s.add("a");
    assert!(!s.contains(&"b"));
    s.add("b");
    assert_eq!(s.len(), 2);
}

#[test]
fn orset_observed_remove_stays_removed() {
    let mut a: ORSet<u64> = ORSet::new();
    a.add(1);
    let b = a.copy_state();
    a.remove(&1);
    assert!(!a.join(&b).contains(&1));
    assert!(!b.join(&a).contains(&1));
}

#[test]
fn orset_new_replicas_add_wins() {
    let mut a: ORSet<&str> = ORSet::new();
    let mut b: ORSet<&str> = ORSet::new();
    a.add("x");
    b.add("x");
    b.remove(&"x");
    assert!(a.join(&b).contains(&"x"));
    assert!(b.join(&a).contains(&"x"));
}
