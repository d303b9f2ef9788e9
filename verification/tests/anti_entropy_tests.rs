use lau_calm_crdt::anti_entropy::{GossipNetwork, MerkleHash, MerkleNode, MerkleSync, Replica};
use lau_calm_crdt::crdt_state::GSet;
use lau_calm_crdt::semilattice::NatMax;

#[test]
fn merkle_diff_same() {
    let a = MerkleNode::leaf(1, [1u8; 32]);
    assert!(a.diff(&MerkleNode::leaf(1, [1u8; 32])).is_empty());
}

#[test]
fn merkle_diff_different() {
    let a = MerkleNode::leaf(1, [1u8; 32]);
    assert!(!a.diff(&MerkleNode::leaf(1, [2u8; 32])).is_empty());
}

#[test]
fn replica_sync() {
    let mut r1 = Replica::new(0);
    let mut r2 = Replica::new(1);
    r1.state = NatMax(5);
    r2.state = NatMax(3);
    r2.sync_from(&r1);
    assert_eq!(r2.state, NatMax(5));
}

#[test]
fn gossip_convergence() {
    let mut net = GossipNetwork::new(3);
    net.replicas[0].state = NatMax(10);
    net.replicas[1].state = NatMax(5);
    net.replicas[2].state = NatMax(3);
    assert!(net.converge(10));
    assert!(net.replicas.iter().all(|r| r.state == NatMax(10)));
}

#[test]
fn gossip_gset_convergence() {
    let mut net: GossipNetwork<GSet<u64>> = GossipNetwork::new(3);
    net.replicas[0].state.add(1);
    net.replicas[0].state.add(2);
    net.replicas[1].state.add(3);
    net.replicas[2].state.add(4);
    assert!(net.converge(10));
    for r in &net.replicas {
        assert!(r.state.contains(&1) && r.state.contains(&2) && r.state.contains(&3) && r.state.contains(&4));
    }
}

#[test]
fn merkle_sync_diff_keys() {
    let sync = MerkleSync::new(MerkleNode::leaf(1, [1u8; 32]), MerkleNode::leaf(2, [2u8; 32]));
    assert!(!sync.diff_keys().is_empty());
}

#[test]
fn merkle_diff_reports_leaf_keys() {
    let a = MerkleNode::leaf(1, [1u8; 32]);
    let b = MerkleNode::leaf(2, [2u8; 32]);
    assert_eq!(a.diff(&b), vec![1, 2]);
    let e = MerkleNode::empty();
    assert!(e.diff(&MerkleNode::empty()).is_empty());
    assert_eq!(MerkleHash::zero(), MerkleHash([0u8; 32]));
}

#[test]
fn replica_sync_reports_change_and_version() {
    let mut r1: Replica<NatMax> = Replica::new(0);
    let mut r2: Replica<NatMax> = Replica::new(1);
    r1.state = NatMax(4);
    assert!(r2.sync_from(&r1));
    assert_eq!(r2.version, 1);
    assert!(!r2.sync_from(&r1));
    assert_eq!(r2.version, 1);
    assert_eq!(r2.id, 1);
}

#[test]
fn gossip_round_counts_changes() {
    let mut net: GossipNetwork<NatMax> = GossipNetwork::new(3);
    net.replicas[1].state = NatMax(7);
    assert!(!net.is_converged());
    assert_eq!(net.gossip_round(), 2);
    assert!(net.is_converged());
    assert_eq!(net.gossip_round(), 0);
    assert!(net.replicas.iter().all(|r| r.state == NatMax(7)));
}

#[test]
fn gossip_zero_rounds() {
    let mut net: GossipNetwork<NatMax> = GossipNetwork::new(2);
    net.replicas[0].state = NatMax(1);
    assert!(!net.converge(0));
    assert!(GossipNetwork::<NatMax>::new(1).is_converged());
}

#[test]
fn merkle_diff_is_symmetric_in_keys() {
    let a = MerkleNode::leaf(1, [1u8; 32]);
    let b = MerkleNode::leaf(2, [2u8; 32]);
    let mut ab = a.diff(&b);
    let mut ba = b.diff(&a);
    ab.sort();
    ba.sort();
    assert_eq!(ab, ba);
}

#[test]
fn merkle_clone_keeps_the_tree() {
    let mut root = MerkleNode::empty();
    root.hash = MerkleHash([3u8; 32]);
    root.children.push(MerkleNode::leaf(4, [4u8; 32]));
    let copy = root.clone();
    assert_eq!(copy.hash, root.hash);
    assert_eq!(copy.children.len(), 1);
    assert_eq!(copy.children[0].key, Some(4));
    assert!(copy.diff(&root).is_empty());
    let sync = MerkleSync::new(root, MerkleNode::leaf(9, [9u8; 32]));
    assert_eq!(sync.clone().diff_keys(), sync.diff_keys());
}
