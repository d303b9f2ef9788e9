use lau_calm_crdt::crdt_op::{CounterOp, MapOp, OpCounter, OpCrdt, OpLWWRegister, OpMap, OpSet, RegisterOp, SetOp};

#[test]
fn op_counter_commutativity() {
    let base = OpCounter::new();
    assert!(OpCounter::verify_commutative(&base, &CounterOp::Inc(5), &CounterOp::Inc(3)));
}

#[test]
fn op_counter_convergence() {
    let ops = vec![CounterOp::Inc(1), CounterOp::Inc(2), CounterOp::Inc(3)];
    let mut s1 = OpCounter::new();
    for op in &ops {
        s1.apply(op);
    }
    let mut s2 = OpCounter::new();
    for op in ops.iter().rev() {
        s2.apply(op);
    }
    assert_eq!(s1, s2);
    assert_eq!(s1.value, 6);
}

#[test]
fn op_set_commutativity() {
    let base = OpSet::<String>::new();
    assert!(OpSet::verify_commutative(&base, &SetOp::Add("x".into()), &SetOp::Add("y".into())));
}

#[test]
fn op_lww_register_commutativity() {
    let base = OpLWWRegister::<String>::new();
    let a = RegisterOp { value: "alice".into(), timestamp: 1 };
    let b = RegisterOp { value: "bob".into(), timestamp: 2 };
    assert!(OpLWWRegister::verify_commutative(&base, &a, &b));
}

#[test]
fn op_lww_register_order_independence() {
    let ops = vec![
        RegisterOp { value: "a".to_string(), timestamp: 1 },
        RegisterOp { value: "b".to_string(), timestamp: 3 },
        RegisterOp { value: "c".to_string(), timestamp: 2 },
    ];
    let mut s1 = OpLWWRegister::new();
    for op in &ops {
        s1.apply(op);
    }
    let mut s2 = OpLWWRegister::new();
    for op in ops.iter().rev() {
        s2.apply(op);
    }
    assert_eq!(s1, s2);
    assert_eq!(s1.value, Some("b".to_string()));
}

#[test]
fn op_map_put_remove() {
    let mut m: OpMap<String, i32> = OpMap::new();
    m.apply(&MapOp::Put("key".to_string(), 42));
    assert_eq!(m.get(&"key".to_string()), Some(&42));
    m.apply(&MapOp::Remove::<String, i32>("key".to_string()));
    assert_eq!(m.get(&"key".to_string()), None);
}

#[test]
fn op_set_add_remove_conflict_does_not_commute() {
    let base = OpSet::<u64>::new();
    assert!(!OpSet::verify_commutative(&base, &SetOp::Add(1), &SetOp::Remove(1)));
    assert!(OpSet::verify_commutative(&base, &SetOp::Add(1), &SetOp::Remove(2)));
    let mut s = OpSet::<u64>::new();
    s.apply(&SetOp::Add(4));
    s.apply(&SetOp::Add(4));
    assert!(s.contains(&4));
    assert_eq!(s.elements().len(), 1);
    s.apply(&SetOp::Remove(4));
    assert!(!s.contains(&4));
}

#[test]
fn op_lww_register_tie_does_not_commute() {
    let base = OpLWWRegister::<u64>::new();
    let a = RegisterOp { value: 1, timestamp: 7 };
    let b = RegisterOp { value: 2, timestamp: 7 };
    assert!(!OpLWWRegister::verify_commutative(&base, &a, &b));
    let c = RegisterOp { value: 1, timestamp: 7 };
    assert!(OpLWWRegister::verify_commutative(&base, &a, &c));
}

#[test]
fn op_map_versions_and_commutation() {
    let mut m: OpMap<u64, u64> = OpMap::new();
    m.apply(&MapOp::Put(1, 10));
    m.apply(&MapOp::Put(1, 11));
    assert_eq!(m.get(&1), Some(&11));
    let base = m;
    assert!(OpMap::verify_commutative(&base, &MapOp::Put(1, 5), &MapOp::Put(2, 6)));
    assert!(!OpMap::verify_commutative(&base, &MapOp::Put(1, 5), &MapOp::Remove(1)));
    assert!(!OpMap::verify_commutative(&base, &MapOp::Put(1, 5), &MapOp::Put(1, 6)));
    assert!(OpMap::verify_commutative(&base, &MapOp::Put(1, 5), &MapOp::Put(1, 5)));
}

#[test]
fn op_counter_negative_increment() {
    let mut c = OpCounter::new();
    c.apply(&CounterOp::Inc(-4));
    c.apply(&CounterOp::Inc(1));
    assert_eq!(c.value, -3);
}

#[test]
fn op_set_last_operation_decides() {
    let mut s = OpSet::<&str>::new();
    s.apply(&SetOp::Add("x"));
    s.apply(&SetOp::Remove("x"));
    assert!(!s.contains(&"x"));
    let mut t = OpSet::<&str>::new();
    t.apply(&SetOp::Remove("x"));
    t.apply(&SetOp::Add("x"));
    assert!(t.contains(&"x"));
}
