use lau_calm_crdt::anti_entropy::GossipNetwork;
use lau_calm_crdt::crdt_state::GCounter;
use lau_calm_crdt::cudaclaw::{verify_crdt, AgentNode, SmartCRDT};
use lau_calm_crdt::semilattice::{BoolOr, BoundedJoinSemilattice, NatMax};

#[test]
fn agent_node_merge() {
    let mut a = AgentNode::new(0);
    let mut b = AgentNode::new(1);
    a.apply_update(|_| NatMax(5));
    b.apply_update(|_| NatMax(3));
    a.merge_from(&b);
    assert_eq!(a.state, NatMax(5));
}

#[test]
fn smart_crdt_heartbeat_and_merge() {
    let mut a = SmartCRDT::new(3);
    let mut b = SmartCRDT::new(3);
    a.tick(0);
    a.tick(0);
    b.tick(1);
    assert_eq!(a.join(&b).heartbeat, vec![2, 1, 0]);
}

#[test]
fn smart_crdt_tasks_merge() {
    let mut a = SmartCRDT::new(2);
    let mut b = SmartCRDT::new(2);
    a.assign_task("render".to_string());
    b.assign_task("compile".to_string());
    let merged = a.join(&b);
    assert!(merged.tasks.contains(&"render".to_string()));
    assert!(merged.tasks.contains(&"compile".to_string()));
}

#[test]
fn verify_gcounter_crdt() {
    let samples = vec![
        GCounter::new(2),
        {
            let mut g = GCounter::new(2);
            g.inc(0);
            g
        },
        {
            let mut g = GCounter::new(2);
            g.inc(0);
            g.inc(1);
            g
        },
    ];
    let result = verify_crdt("G-Counter", &samples, &|x: &GCounter| {
        let mut c = x.clone();
        c.inc(0);
        c
    });
    assert!(result.is_monotone);
    assert!(result.converges);
    assert!(result.semilattice_axioms_hold);
}

#[test]
fn verify_smart_crdt() {
    let s0 = SmartCRDT::new(2);
    let mut s1 = SmartCRDT::new(2);
    s1.tick(0);
    let mut s2 = SmartCRDT::new(2);
    s2.tick(1);
    s2.assign_task("task_a".to_string());
    let result = verify_crdt("SmartCRDT", &[s0, s1, s2], &|x: &SmartCRDT| {
        let mut c = x.clone();
        c.tick(0);
        c
    });
    assert!(result.is_monotone);
    assert!(result.converges);
}

#[test]
fn smart_crdt_gossip_convergence() {
    let mut net: GossipNetwork<SmartCRDT> = GossipNetwork::new(3);
    net.replicas[0].state = SmartCRDT::new(3);
    net.replicas[0].state.tick(0);
    net.replicas[1].state = SmartCRDT::new(3);
    net.replicas[1].state.tick(1);
    net.replicas[1].state.tasks.add("task_x".to_string());
    net.replicas[2].state = SmartCRDT::new(3);
    net.replicas[2].state.tick(2);
    assert!(net.converge(10));
    assert!(net.replicas.iter().all(|r| r.state.tasks.contains(&"task_x".to_string())));
}

#[test]
fn smart_crdt_active_agents() {
    let mut s = SmartCRDT::new(4);
    s.tick(0);
    s.tick(2);
    assert_eq!(s.active_agents(), 2);
}

#[test]
fn verify_crdt_reports_explanation() {
    let samples = vec![NatMax(1), NatMax(4), NatMax(2)];
    let ok = verify_crdt("max", &samples, &|x: &NatMax| NatMax(x.0 + 1));
    assert_eq!(ok.crdt_name, "max");
    assert!(ok.is_coordination_free);
    assert_eq!(
        ok.explanation,
        "CUDAclaw SmartCRDT 'max' VERIFIED: operations are monotone, semilattice axioms hold, convergence guaranteed without coordination."
    );
    let bools = vec![BoolOr(false), BoolOr(true)];
    let bad = verify_crdt("flip", &bools, &|x: &BoolOr| BoolOr(!x.0));
    assert!(!bad.is_monotone);
    assert!(bad.converges);
    assert_eq!(bad.explanation, "CUDAclaw SmartCRDT 'flip' WARNING: monotone=false, axioms=true, converges=true");
}

#[test]
fn agent_node_counts_operations() {
    let mut a: AgentNode<NatMax> = AgentNode::new(7);
    assert_eq!(a.op_count, 0);
    assert!(a.state.is_bottom());
    a.apply_update(|s: &NatMax| NatMax(s.0 + 2));
    let b: AgentNode<NatMax> = AgentNode::new(8);
    a.merge_from(&b);
    assert_eq!(a.state, NatMax(2));
    assert_eq!(a.op_count, 2);
    assert_eq!(a.id, 7);
}

#[test]
fn smart_crdt_join_pads_shorter_state() {
    let mut a = SmartCRDT::new(1);
    a.tick(0);
    let mut b = SmartCRDT::new(3);
    b.tick(2);
    let j = a.join(&b);
    assert_eq!(j.heartbeat, vec![1, 0, 1]);
    assert_eq!(j.version, vec![1, 0, 1]);
    assert_eq!(j.active_agents(), 2);
    assert!(SmartCRDT::bottom().join(&j).same_state(&j));
}
