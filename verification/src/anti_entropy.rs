//! Anti-entropy: Merkle-tree diffing of replica states, and gossip rounds in
//! which every replica joins every other replica's state.

use vstd::prelude::*;
use crate::convergence::{coherent, lemma_fold_absorbs, lemma_fold_prefix};
use crate::semilattice::{fold_join, BoundedJoinSemilattice};

verus! {

/// A Merkle tree hash for state comparison.
#[derive(Clone, PartialEq, Eq, Debug)]
pub struct MerkleHash(pub [u8; 32]);

/// The all-zero hash.
pub open spec fn zero_hash() -> Seq<u8> {
    Seq::new(32, |i: int| 0u8)
}

impl MerkleHash {
    /// The all-zero hash.
    pub fn zero() -> (r: Self)
        ensures
            r.0@ == zero_hash(),
    {
        let r = MerkleHash([0u8; 32]);
        assert(r.0@ =~= zero_hash());
        r
    }
}

/// Whether two hashes hold the same bytes.
fn same_hash(a: &MerkleHash, b: &MerkleHash) -> (r: bool)
    ensures
        r == (a.0@ == b.0@),
{
    let mut i: usize = 0;
    while i < 32
        invariant
            i <= 32,
            a.0@.len() == 32,
            b.0@.len() == 32,
            forall|j: int| 0 <= j < i ==> a.0@[j] == b.0@[j],
        decreases 32 - i,
    {
        if a.0[i] != b.0[i] {
            return false;
        }
        i += 1;
    }
    assert(a.0@ =~= b.0@);
    true
}

/// A simple Merkle tree node for state diffing.
#[derive(Debug)]
pub struct MerkleNode {
    pub hash: MerkleHash,
    pub children: Vec<MerkleNode>,
    pub key: Option<u64>,
}

/// The height of a tree: one more than the highest child.
pub open spec fn height(n: MerkleNode) -> nat
    decreases n, 1nat,
{
    1 + forest_height(n.children@)
}

/// The height of the highest tree of a sequence (zero when it is empty).
pub open spec fn forest_height(s: Seq<MerkleNode>) -> nat
    decreases s, 0nat,
{
    if s.len() == 0 {
        0
    } else {
        let rest = forest_height(s.subrange(0, s.len() - 1));
        let last = height(s[s.len() - 1]);
        if rest >= last {
            rest
        } else {
            last
        }
    }
}

/// Each tree of a sequence is at most as high as the sequence.
pub proof fn lemma_forest_height(s: Seq<MerkleNode>, i: int)
    requires
        0 <= i < s.len(),
    ensures
        height(s[i]) <= forest_height(s),
    decreases s.len(),
{
    if i < s.len() - 1 {
        lemma_forest_height(s.subrange(0, s.len() - 1), i);
    }
}

/// A node as seen by the diff: an absent child counts as the empty node
/// (zero hash, no children, no key).
pub open spec fn hash_of(o: Option<MerkleNode>) -> Seq<u8> {
    match o {
        Some(n) => n.hash.0@,
        None => zero_hash(),
    }
}

pub open spec fn children_of(o: Option<MerkleNode>) -> Seq<MerkleNode> {
    match o {
        Some(n) => n.children@,
        None => Seq::empty(),
    }
}

pub open spec fn key_of(o: Option<MerkleNode>) -> Option<u64> {
    match o {
        Some(n) => n.key,
        None => None,
    }
}

pub open spec fn height_of(o: Option<MerkleNode>) -> nat {
    match o {
        Some(n) => height(n),
        None => 1,
    }
}

/// The `i`-th child, if there is one.
pub open spec fn child_of(o: Option<MerkleNode>, i: int) -> Option<MerkleNode> {
    if 0 <= i < children_of(o).len() {
        Some(children_of(o)[i])
    } else {
        None
    }
}

/// The keys of two leaves that differ: the first one's, then the second's
/// unless it is the same.
pub open spec fn leaf_keys(a: Option<u64>, b: Option<u64>) -> Seq<u64> {
    match (a, b) {
        (Some(x), Some(y)) => if x == y {
            seq![x]
        } else {
            seq![x, y]
        },
        (Some(x), None) => seq![x],
        (None, Some(y)) => seq![y],
        (None, None) => seq![],
    }
}

/// A child is lower than its parent.
pub proof fn lemma_child_lower(o: Option<MerkleNode>, i: int)
    ensures
        child_of(o, i) is Some ==> height_of(child_of(o, i)) < height_of(o),
        height_of(child_of(o, i)) >= 1,
        height_of(o) >= 1,
{
    if child_of(o, i) is Some {
        let n = o->Some_0;
        lemma_forest_height(n.children@, i);
    }
}

/// The number of child positions that a diff of two nodes compares.
pub open spec fn child_count(a: Option<MerkleNode>, b: Option<MerkleNode>) -> nat {
    if children_of(a).len() >= children_of(b).len() {
        children_of(a).len()
    } else {
        children_of(b).len()
    }
}

/// The keys where two trees differ.
pub open spec fn diff_spec(a: Option<MerkleNode>, b: Option<MerkleNode>) -> Seq<u64>
    decreases height_of(a) + height_of(b), child_count(a, b) + 1,
{
    if hash_of(a) == hash_of(b) {
        seq![]
    } else if children_of(a).len() == 0 && children_of(b).len() == 0 {
        leaf_keys(key_of(a), key_of(b))
    } else {
        children_diff(a, b, child_count(a, b) as int)
    }
}

/// The diffs of the first `k` child positions of two trees, concatenated.
pub open spec fn children_diff(a: Option<MerkleNode>, b: Option<MerkleNode>, k: int) -> Seq<u64>
    decreases height_of(a) + height_of(b), k,
{
    if k <= 0 || k > child_count(a, b) {
        seq![]
    } else {
        proof {
            lemma_child_lower(a, k - 1);
            lemma_child_lower(b, k - 1);
        }
        children_diff(a, b, k - 1) + diff_spec(child_of(a, k - 1), child_of(b, k - 1))
    }
}

/// Trees with equal root hashes, identical trees among them, have no
/// difference.
pub proof fn lemma_diff_equal_hashes(a: MerkleNode, b: MerkleNode)
    requires
        a.hash.0@ == b.hash.0@,
    ensures
        diff_spec(Some(a), Some(b)) == Seq::<u64>::empty(),
{
}

/// A value occurs in a concatenation exactly when it occurs in a part.
proof fn lemma_concat_contains(s: Seq<u64>, t: Seq<u64>, x: u64)
    ensures
        (s + t).contains(x) == (s.contains(x) || t.contains(x)),
{
    if s.contains(x) {
        let i = choose|i: int| 0 <= i < s.len() && s[i] == x;
        assert((s + t)[i] == x);
    }
    if t.contains(x) {
        let i = choose|i: int| 0 <= i < t.len() && t[i] == x;
        assert((s + t)[s.len() + i] == x);
    }
    if (s + t).contains(x) {
        let i = choose|i: int| 0 <= i < (s + t).len() && (s + t)[i] == x;
        if i < s.len() {
            assert(s[i] == x);
        } else {
            assert(t[i - s.len()] == x);
        }
    }
}

/// The diff of the first `k` child positions contains the diff of each of
/// those positions.
proof fn lemma_children_diff_includes(
    a: Option<MerkleNode>,
    b: Option<MerkleNode>,
    k: int,
    i: int,
    x: u64,
)
    requires
        0 <= i < k <= child_count(a, b),
        diff_spec(child_of(a, i), child_of(b, i)).contains(x),
    ensures
        children_diff(a, b, k).contains(x),
    decreases k,
{
    lemma_concat_contains(
        children_diff(a, b, k - 1),
        diff_spec(child_of(a, k - 1), child_of(b, k - 1)),
        x,
    );
    if i < k - 1 {
        lemma_children_diff_includes(a, b, k - 1, i, x);
    }
}

/// The diff of two trees with different root hashes, not both leaves,
/// reports every key that the diff of any child position reports, up to the
/// longer child list (a child missing on one side counting as the empty
/// node).
pub proof fn lemma_diff_covers_children(a: MerkleNode, b: MerkleNode, i: int, x: u64)
    requires
        a.hash.0@ != b.hash.0@,
        a.children@.len() > 0 || b.children@.len() > 0,
        0 <= i,
        i < a.children@.len() || i < b.children@.len(),
        diff_spec(child_of(Some(a), i), child_of(Some(b), i)).contains(x),
    ensures
        diff_spec(Some(a), Some(b)).contains(x),
{
    lemma_children_diff_includes(Some(a), Some(b), child_count(Some(a), Some(b)) as int, i, x);
}

/// A leaf that only one tree has, at a position the other tree lacks, is
/// reported by the diff when its hash is not the empty node's.
pub proof fn lemma_diff_reports_unmatched_leaf(a: MerkleNode, b: MerkleNode, i: int, k: u64)
    requires
        a.hash.0@ != b.hash.0@,
        a.children@.len() <= i < b.children@.len(),
        b.children@[i].children@.len() == 0,
        b.children@[i].key == Some(k),
        b.children@[i].hash.0@ != zero_hash(),
    ensures
        diff_spec(Some(a), Some(b)).contains(k),
        diff_spec(Some(b), Some(a)).contains(k),
{
    let c = b.children@[i];
    assert(child_of(Some(a), i) is None);
    assert(child_of(Some(b), i) == Some(c));
    assert(diff_spec(None, Some(c)) == leaf_keys(None, Some(k)));
    assert(diff_spec(None, Some(c))[0] == k);
    lemma_diff_covers_children(a, b, i, k);
    lemma_diff_symmetric(Some(a), Some(b), k);
}

/// Diff symmetry: the keys where `a` differs from `b` are the keys where `b`
/// differs from `a` (the order they come in may differ).
pub proof fn lemma_diff_symmetric(a: Option<MerkleNode>, b: Option<MerkleNode>, x: u64)
    ensures
        diff_spec(a, b).contains(x) == diff_spec(b, a).contains(x),
    decreases height_of(a) + height_of(b), child_count(a, b) + 1,
{
    if hash_of(a) == hash_of(b) {
    } else if children_of(a).len() == 0 && children_of(b).len() == 0 {
        let ka = key_of(a);
        let kb = key_of(b);
        let l = leaf_keys(ka, kb);
        let r = leaf_keys(kb, ka);
        assert(l.contains(x) == r.contains(x)) by {
            if l.contains(x) {
                let i = choose|i: int| 0 <= i < l.len() && l[i] == x;
                if r.len() > 0 {
                    assert(r[0] == x || (r.len() > 1 && r[1] == x));
                }
            }
            if r.contains(x) {
                let i = choose|i: int| 0 <= i < r.len() && r[i] == x;
                if l.len() > 0 {
                    assert(l[0] == x || (l.len() > 1 && l[1] == x));
                }
            }
        }
    } else {
        lemma_children_diff_symmetric(a, b, child_count(a, b) as int, x);
    }
}

/// Diff symmetry, position by position over the first `k` children.
proof fn lemma_children_diff_symmetric(a: Option<MerkleNode>, b: Option<MerkleNode>, k: int, x: u64)
    ensures
        children_diff(a, b, k).contains(x) == children_diff(b, a, k).contains(x),
    decreases height_of(a) + height_of(b), k,
{
    if k <= 0 || k > child_count(a, b) {
    } else {
        lemma_child_lower(a, k - 1);
        lemma_child_lower(b, k - 1);
        lemma_children_diff_symmetric(a, b, k - 1, x);
        lemma_diff_symmetric(child_of(a, k - 1), child_of(b, k - 1), x);
        lemma_concat_contains(
            children_diff(a, b, k - 1),
            diff_spec(child_of(a, k - 1), child_of(b, k - 1)),
            x,
        );
        lemma_concat_contains(
            children_diff(b, a, k - 1),
            diff_spec(child_of(b, k - 1), child_of(a, k - 1)),
            x,
        );
    }
}

/// The node that an optional reference points to.
pub open spec fn deref_node(o: Option<&MerkleNode>) -> Option<MerkleNode> {
    match o {
        Some(n) => Some(*n),
        None => None,
    }
}

/// Diffs two optional nodes, absent ones counting as empty.
fn diff_nodes(a: Option<&MerkleNode>, b: Option<&MerkleNode>) -> (r: Vec<u64>)
    ensures
        r@ == diff_spec(deref_node(a), deref_node(b)),
    decreases height_of(deref_node(a)) + height_of(deref_node(b)),
{
    let ghost ga = deref_node(a);
    let ghost gb = deref_node(b);
    let zero = MerkleHash::zero();
    let ha = match a {
        Some(n) => &n.hash,
        None => &zero,
    };
    let hb = match b {
        Some(n) => &n.hash,
        None => &zero,
    };
    if same_hash(ha, hb) {
        return Vec::new();
    }
    let la = match a {
        Some(n) => n.children.len(),
        None => 0,
    };
    let lb = match b {
        Some(n) => n.children.len(),
        None => 0,
    };
    if la == 0 && lb == 0 {
        let mut keys: Vec<u64> = Vec::new();
        let ka = match a {
            Some(n) => n.key,
            None => None,
        };
        let kb = match b {
            Some(n) => n.key,
            None => None,
        };
        if let Some(k) = ka {
            keys.push(k);
        }
        if let Some(k) = kb {
            let present = match ka {
                Some(x) => x == k,
                None => false,
            };
            if !present {
                keys.push(k);
            }
        }
        assert(keys@ =~= leaf_keys(key_of(ga), key_of(gb)));
        return keys;
    }
    let max_len = if la >= lb {
        la
    } else {
        lb
    };
    let mut diffs: Vec<u64> = Vec::new();
    let mut i: usize = 0;
    while i < max_len
        invariant
            i <= max_len,
            max_len == child_count(ga, gb),
            ga == deref_node(a),
            gb == deref_node(b),
            la == children_of(ga).len(),
            lb == children_of(gb).len(),
            diffs@ == children_diff(ga, gb, i as int),
        decreases max_len - i,
    {
        let left = match a {
            Some(n) => if i < n.children.len() {
                Some(&n.children[i])
            } else {
                None
            },
            None => None,
        };
        let right = match b {
            Some(n) => if i < n.children.len() {
                Some(&n.children[i])
            } else {
                None
            },
            None => None,
        };
        proof {
            assert(deref_node(left) == child_of(ga, i as int));
            assert(deref_node(right) == child_of(gb, i as int));
            lemma_child_lower(ga, i as int);
            lemma_child_lower(gb, i as int);
        }
        let d = diff_nodes(left, right);
        let mut k: usize = 0;
        let ghost before = diffs@;
        while k < d.len()
            invariant
                k <= d@.len(),
                diffs@ == before + d@.take(k as int),
            decreases d.len() - k,
        {
            diffs.push(d[k]);
            k += 1;
            assert(diffs@ =~= before + d@.take(k as int));
        }
        assert(d@.take(d@.len() as int) =~= d@);
        i += 1;
    }
    diffs
}

impl MerkleNode {
    /// A leaf holding a key.
    pub fn leaf(key: u64, hash: [u8; 32]) -> (r: Self)
        ensures
            r.hash.0 == hash,
            r.children@.len() == 0,
            r.key == Some(key),
    {
        MerkleNode { hash: MerkleHash(hash), children: Vec::new(), key: Some(key) }
    }

    /// The empty node: zero hash, no children, no key.
    pub fn empty() -> (r: Self)
        ensures
            r.hash.0@ == zero_hash(),
            r.children@.len() == 0,
            r.key is None,
    {
        MerkleNode { hash: MerkleHash::zero(), children: Vec::new(), key: None }
    }

    /// The keys where two trees differ. Equal hashes mean no difference;
    /// otherwise two leaves give their keys, and inner nodes give the diffs
    /// of their children position by position (a missing child counting as
    /// the empty node).
    pub fn diff(&self, other: &MerkleNode) -> (r: Vec<u64>)
        ensures
            r@ == diff_spec(Some(*self), Some(*other)),
    {
        diff_nodes(Some(self), Some(other))
    }
}

/// Two trees with equal hashes and keys, node by node.
pub open spec fn same_tree(a: MerkleNode, b: MerkleNode) -> bool
    decreases a, 1nat,
{
    a.hash == b.hash && a.key == b.key && same_forest(a.children@, b.children@)
}

/// Two sequences of trees that are the same tree by tree.
pub open spec fn same_forest(s: Seq<MerkleNode>, t: Seq<MerkleNode>) -> bool
    decreases s, 0nat,
{
    if s.len() == 0 {
        t.len() == 0
    } else {
        t.len() == s.len() && same_forest(s.subrange(0, s.len() - 1), t.subrange(0, t.len() - 1))
            && same_tree(s[s.len() - 1], t[t.len() - 1])
    }
}

/// A copy of a tree.
fn copy_node(n: &MerkleNode) -> (r: MerkleNode)
    ensures
        same_tree(r, *n),
    decreases height(*n),
{
    let mut children: Vec<MerkleNode> = Vec::new();
    let mut i: usize = 0;
    while i < n.children.len()
        invariant
            i <= n.children@.len(),
            same_forest(children@, n.children@.take(i as int)),
        decreases n.children@.len() - i,
    {
        proof {
            lemma_forest_height(n.children@, i as int);
        }
        let c = copy_node(&n.children[i]);
        let ghost before = children@;
        children.push(c);
        proof {
            let t = n.children@.take(i as int + 1);
            assert(children@.subrange(0, children@.len() - 1) =~= before);
            assert(t.subrange(0, t.len() - 1) =~= n.children@.take(i as int));
        }
        i += 1;
    }
    proof {
        assert(n.children@.take(n.children@.len() as int) =~= n.children@);
    }
    MerkleNode { hash: MerkleHash(n.hash.0), children, key: n.key }
}

impl Clone for MerkleNode {
    /// A copy with the same hashes and keys, node by node.
    fn clone(&self) -> (r: Self)
        ensures
            same_tree(r, *self),
    {
        copy_node(self)
    }
}

impl Clone for MerkleSync {
    /// A copy of both trees.
    fn clone(&self) -> (r: Self)
        ensures
            same_tree(r.local_tree, self.local_tree),
            same_tree(r.remote_tree, self.remote_tree),
    {
        MerkleSync {
            local_tree: copy_node(&self.local_tree),
            remote_tree: copy_node(&self.remote_tree),
        }
    }
}

/// Merkle-based state sync.
#[derive(Debug)]
pub struct MerkleSync {
    pub local_tree: MerkleNode,
    pub remote_tree: MerkleNode,
}

impl MerkleSync {
    /// A sync between a local and a remote tree.
    pub fn new(local: MerkleNode, remote: MerkleNode) -> (r: Self)
        ensures
            r.local_tree == local,
            r.remote_tree == remote,
    {
        MerkleSync { local_tree: local, remote_tree: remote }
    }

    /// The keys where the two trees differ.
    pub fn diff_keys(&self) -> (r: Vec<u64>)
        ensures
            r@ == diff_spec(Some(self.local_tree), Some(self.remote_tree)),
    {
        self.local_tree.diff(&self.remote_tree)
    }
}

// ---------------------------------------------------------------------------
// Replicas and gossip
// ---------------------------------------------------------------------------

/// A replica in the anti-entropy protocol.
#[derive(Clone, Debug)]
pub struct Replica<L> {
    pub id: usize,
    pub state: L,
    pub version: u64,
}

impl<L: BoundedJoinSemilattice> Replica<L> {
    /// A replica at bottom, version zero.
    pub fn new(id: usize) -> (r: Self)
        ensures
            r.id == id,
            r.state.wf(),
            r.state@ == L::bottom_model(),
            r.version == 0,
    {
        Replica { id, state: L::bottom(), version: 0 }
    }

    /// Joins another replica's state into this one; when that changes the
    /// state, the version goes up by one and the result is `true`.
    pub fn sync_from(&mut self, other: &Replica<L>) -> (r: bool)
        requires
            old(self).state.wf(),
            other.state.wf(),
            L::join_model(old(self).state@, other.state@) != old(self).state@ ==> old(self).version
                < u64::MAX,
        ensures
            r == (L::join_model(old(self).state@, other.state@) != old(self).state@),
            final(self).id == old(self).id,
            final(self).state.wf(),
            final(self).state@ == L::join_model(old(self).state@, other.state@),
            final(self).version == (if r {
                old(self).version + 1
            } else {
                old(self).version as int
            }),
    {
        let merged = self.state.join(&other.state);
        if !merged.same_state(&self.state) {
            self.state = merged;
            self.version = self.version + 1;
            true
        } else {
            false
        }
    }
}

/// The state views of a sequence of replicas.
pub open spec fn state_views<L: BoundedJoinSemilattice>(rs: Seq<Replica<L>>) -> Seq<L::V> {
    rs.map_values(|r: Replica<L>| r.state@)
}

/// The versions of a sequence of replicas.
pub open spec fn versions<L>(rs: Seq<Replica<L>>) -> Seq<int> {
    rs.map_values(|r: Replica<L>| r.version as int)
}

/// Every replica's state is well-formed.
pub open spec fn replicas_wf<L: BoundedJoinSemilattice>(rs: Seq<Replica<L>>) -> bool {
    forall|i: int| 0 <= i < rs.len() ==> (#[trigger] rs[i]).state.wf()
}

/// The view of replica `i` after it joined, in order, the snapshot states of
/// the replicas before `upto` other than itself.
pub open spec fn absorb<L: BoundedJoinSemilattice>(acc: L::V, snap: Seq<L::V>, i: int, upto: int) -> L::V
    decreases upto,
{
    if upto <= 0 {
        acc
    } else {
        let prev = absorb::<L>(acc, snap, i, upto - 1);
        if upto - 1 == i {
            prev
        } else {
            L::join_model(prev, snap[upto - 1])
        }
    }
}

/// How many of those joins changed the state of replica `i`.
pub open spec fn absorb_changes<L: BoundedJoinSemilattice>(
    acc: L::V,
    snap: Seq<L::V>,
    i: int,
    upto: int,
) -> nat
    decreases upto,
{
    if upto <= 0 {
        0
    } else {
        let prev = absorb::<L>(acc, snap, i, upto - 1);
        let c = absorb_changes::<L>(acc, snap, i, upto - 1);
        if upto - 1 != i && L::join_model(prev, snap[upto - 1]) != prev {
            c + 1
        } else {
            c
        }
    }
}

/// The state views after a gossip round on a snapshot.
pub open spec fn round_states<L: BoundedJoinSemilattice>(snap: Seq<L::V>) -> Seq<L::V> {
    Seq::new(snap.len(), |i: int| absorb::<L>(snap[i], snap, i, snap.len() as int))
}

/// The number of state changes of each replica in a gossip round.
pub open spec fn round_changes<L: BoundedJoinSemilattice>(snap: Seq<L::V>) -> Seq<nat> {
    Seq::new(snap.len(), |i: int| absorb_changes::<L>(snap[i], snap, i, snap.len() as int))
}

/// The number of state changes of the replicas before `i` in a gossip round.
pub open spec fn changes_before<L: BoundedJoinSemilattice>(snap: Seq<L::V>, i: int) -> nat
    decreases i,
{
    if i <= 0 {
        0
    } else {
        changes_before::<L>(snap, i - 1) + round_changes::<L>(snap)[i - 1]
    }
}

/// The versions after a gossip round.
pub open spec fn round_versions<L: BoundedJoinSemilattice>(snap: Seq<L::V>, vers: Seq<int>) -> Seq<
    int,
> {
    Seq::new(vers.len(), |i: int| vers[i] + round_changes::<L>(snap)[i])
}

/// A gossip round on the snapshot overflows neither a version nor the count
/// of changes.
pub open spec fn round_fits<L: BoundedJoinSemilattice>(snap: Seq<L::V>, vers: Seq<int>) -> bool {
    &&& forall|i: int| 0 <= i < vers.len() ==> #[trigger] round_versions::<L>(snap, vers)[i] <= u64::MAX
    &&& changes_before::<L>(snap, snap.len() as int) <= usize::MAX
}

/// All replicas hold the same state view.
pub open spec fn converged<V>(s: Seq<V>) -> bool {
    s.len() <= 1 || forall|i: int| 0 <= i < s.len() ==> #[trigger] s[i] == s[0]
}

/// The state views after gossiping until convergence, for at most `k` rounds.
pub open spec fn run_rounds<L: BoundedJoinSemilattice>(s: Seq<L::V>, k: nat) -> Seq<L::V>
    decreases k,
{
    if k == 0 || converged(s) {
        s
    } else {
        run_rounds::<L>(round_states::<L>(s), (k - 1) as nat)
    }
}

/// The versions after those rounds.
pub open spec fn run_versions<L: BoundedJoinSemilattice>(s: Seq<L::V>, vers: Seq<int>, k: nat) -> Seq<
    int,
>
    decreases k,
{
    if k == 0 || converged(s) {
        vers
    } else {
        run_versions::<L>(round_states::<L>(s), round_versions::<L>(s, vers), (k - 1) as nat)
    }
}

/// None of those rounds overflows.
pub open spec fn rounds_fit<L: BoundedJoinSemilattice>(s: Seq<L::V>, vers: Seq<int>, k: nat) -> bool
    decreases k,
{
    if k == 0 || converged(s) {
        true
    } else {
        round_fits::<L>(s, vers) && rounds_fit::<L>(
            round_states::<L>(s),
            round_versions::<L>(s, vers),
            (k - 1) as nat,
        )
    }
}

proof fn lemma_absorb_changes_grow<L: BoundedJoinSemilattice>(
    acc: L::V,
    snap: Seq<L::V>,
    i: int,
    u: int,
    w: int,
)
    requires
        0 <= u <= w,
    ensures
        absorb_changes::<L>(acc, snap, i, u) <= absorb_changes::<L>(acc, snap, i, w),
    decreases w - u,
{
    if u < w {
        lemma_absorb_changes_grow::<L>(acc, snap, i, u, w - 1);
    }
}

proof fn lemma_changes_before_grow<L: BoundedJoinSemilattice>(snap: Seq<L::V>, i: int, k: int)
    requires
        0 <= i <= k,
    ensures
        changes_before::<L>(snap, i) <= changes_before::<L>(snap, k),
    decreases k - i,
{
    if i < k {
        lemma_changes_before_grow::<L>(snap, i, k - 1);
    }
}

/// Gossip-based anti-entropy simulation.
#[derive(Debug, Clone)]
pub struct GossipNetwork<L> {
    pub replicas: Vec<Replica<L>>,
}

impl<L: BoundedJoinSemilattice> GossipNetwork<L> {
    /// A network of `n` replicas at bottom, with ids `0..n`.
    pub fn new(n: usize) -> (r: Self)
        ensures
            r.replicas@.len() == n,
            replicas_wf(r.replicas@),
            forall|i: int|
                0 <= i < n ==> (#[trigger] r.replicas@[i]).id == i && r.replicas@[i].state@
                    == L::bottom_model() && r.replicas@[i].version == 0,
    {
        let mut replicas: Vec<Replica<L>> = Vec::new();
        let mut i: usize = 0;
        while i < n
            invariant
                i <= n,
                replicas@.len() == i,
                replicas_wf(replicas@),
                forall|k: int|
                    0 <= k < i ==> (#[trigger] replicas@[k]).id == k && replicas@[k].state@
                        == L::bottom_model() && replicas@[k].version == 0,
            decreases n - i,
        {
            replicas.push(Replica::new(i));
            i += 1;
        }
        GossipNetwork { replicas }
    }

    /// One round: every replica joins, in order, the states that the other
    /// replicas had at the start of the round; returns the number of joins
    /// that changed a state.
    pub fn gossip_round(&mut self) -> (r: usize)
        requires
            replicas_wf(old(self).replicas@),
            round_fits::<L>(state_views(old(self).replicas@), versions(old(self).replicas@)),
        ensures
            final(self).replicas@.len() == old(self).replicas@.len(),
            replicas_wf(final(self).replicas@),
            forall|i: int|
                0 <= i < final(self).replicas@.len() ==> (#[trigger] final(self).replicas@[i]).id
                    == old(self).replicas@[i].id,
            state_views(final(self).replicas@) == round_states::<L>(state_views(old(self).replicas@)),
            versions(final(self).replicas@) == round_versions::<L>(
                state_views(old(self).replicas@),
                versions(old(self).replicas@),
            ),
            r == changes_before::<L>(
                state_views(old(self).replicas@),
                old(self).replicas@.len() as int,
            ),
    {
        let ghost snap = state_views(self.replicas@);
        let ghost vers = versions(self.replicas@);
        let ghost old_replicas = self.replicas@;
        let n = self.replicas.len();
        let mut states: Vec<L> = Vec::new();
        let mut k: usize = 0;
        while k < n
            invariant
                k <= n,
                n == self.replicas@.len(),
                self.replicas@ == old_replicas,
                snap == state_views(old_replicas),
                replicas_wf(old_replicas),
                states@.len() == k,
                forall|x: int| 0 <= x < k ==> (#[trigger] states@[x]).wf() && states@[x]@ == snap[x],
            decreases n - k,
        {
            states.push(self.replicas[k].state.copy_state());
            k += 1;
        }
        let mut changes: usize = 0;
        let mut i: usize = 0;
        while i < n
            invariant
                i <= n,
                n == self.replicas@.len(),
                n == old_replicas.len(),
                snap == state_views(old_replicas),
                vers == versions(old_replicas),
                replicas_wf(old_replicas),
                round_fits::<L>(snap, vers),
                states@.len() == n,
                forall|x: int| 0 <= x < n ==> (#[trigger] states@[x]).wf() && states@[x]@ == snap[x],
                forall|x: int| i <= x < n ==> #[trigger] self.replicas@[x] == old_replicas[x],
                forall|x: int|
                    0 <= x < i ==> (#[trigger] self.replicas@[x]).id == old_replicas[x].id
                        && self.replicas@[x].state.wf() && self.replicas@[x].state@ == round_states::<
                        L,
                    >(snap)[x] && self.replicas@[x].version == round_versions::<L>(snap, vers)[x],
                changes == changes_before::<L>(snap, i as int),
            decreases n - i,
        {
            let id = self.replicas[i].id;
            let mut version = self.replicas[i].version;
            let mut cur = self.replicas[i].state.copy_state();
            proof {
                lemma_absorb_changes_grow::<L>(snap[i as int], snap, i as int, 0, n as int);
                lemma_changes_before_grow::<L>(snap, i as int + 1, n as int);
                assert(round_versions::<L>(snap, vers)[i as int] <= u64::MAX);
            }
            let mut j: usize = 0;
            while j < n
                invariant
                    i < n,
                    j <= n,
                    n == old_replicas.len(),
                    snap == state_views(old_replicas),
                    vers == versions(old_replicas),
                    states@.len() == n,
                    forall|x: int| 0 <= x < n ==> (#[trigger] states@[x]).wf() && states@[x]@ == snap[x],
                    cur.wf(),
                    cur@ == absorb::<L>(snap[i as int], snap, i as int, j as int),
                    version == vers[i as int] + absorb_changes::<L>(snap[i as int], snap, i as int, j as int),
                    changes == changes_before::<L>(snap, i as int) + absorb_changes::<L>(
                        snap[i as int],
                        snap,
                        i as int,
                        j as int,
                    ),
                    vers[i as int] + absorb_changes::<L>(snap[i as int], snap, i as int, n as int) <= u64::MAX,
                    changes_before::<L>(snap, i as int) + absorb_changes::<L>(snap[i as int], snap, i as int, n as int) <= usize::MAX,
                decreases n - j,
            {
                proof {
                    lemma_absorb_changes_grow::<L>(snap[i as int], snap, i as int, j as int + 1, n as int);
                }
                if i != j {
                    let merged = cur.join(&states[j]);
                    if !merged.same_state(&cur) {
                        cur = merged;
                        version = version + 1;
                        changes = changes + 1;
                    }
                }
                j += 1;
            }
            self.replicas.set(i, Replica { id, state: cur, version });
            i += 1;
        }
        proof {
            assert(state_views(self.replicas@) =~= round_states::<L>(snap));
            assert(versions(self.replicas@) =~= round_versions::<L>(snap, vers));
        }
        changes
    }

    /// Gossips until all replicas hold the same state, for at most
    /// `max_rounds` rounds; returns whether they then agree.
    pub fn converge(&mut self, max_rounds: usize) -> (r: bool)
        requires
            replicas_wf(old(self).replicas@),
            rounds_fit::<L>(
                state_views(old(self).replicas@),
                versions(old(self).replicas@),
                max_rounds as nat,
            ),
        ensures
            final(self).replicas@.len() == old(self).replicas@.len(),
            replicas_wf(final(self).replicas@),
            forall|i: int|
                0 <= i < final(self).replicas@.len() ==> (#[trigger] final(self).replicas@[i]).id
                    == old(self).replicas@[i].id,
            state_views(final(self).replicas@) == run_rounds::<L>(
                state_views(old(self).replicas@),
                max_rounds as nat,
            ),
            versions(final(self).replicas@) == run_versions::<L>(
                state_views(old(self).replicas@),
                versions(old(self).replicas@),
                max_rounds as nat,
            ),
            r == converged(state_views(final(self).replicas@)),
    {
        let ghost s0 = state_views(self.replicas@);
        let ghost v0 = versions(self.replicas@);
        let ghost ids = self.replicas@.map_values(|r: Replica<L>| r.id);
        let mut k: usize = 0;
        while k < max_rounds
            invariant
                k <= max_rounds,
                replicas_wf(self.replicas@),
                self.replicas@.map_values(|r: Replica<L>| r.id) == ids,
                ids == old(self).replicas@.map_values(|r: Replica<L>| r.id),
                s0 == state_views(old(self).replicas@),
                v0 == versions(old(self).replicas@),
                rounds_fit::<L>(state_views(self.replicas@), versions(self.replicas@), (max_rounds - k) as nat),
                run_rounds::<L>(state_views(self.replicas@), (max_rounds - k) as nat) == run_rounds::<L>(s0, max_rounds as nat),
                run_versions::<L>(state_views(self.replicas@), versions(self.replicas@), (max_rounds - k) as nat)
                    == run_versions::<L>(s0, v0, max_rounds as nat),
            decreases max_rounds - k,
        {
            if self.is_converged() {
                proof {
                    assert(self.replicas@.len() == ids.len());
                    assert forall|i: int| 0 <= i < self.replicas@.len() implies (#[trigger] self.replicas@[i]).id == old(self).replicas@[i].id by {
                        assert(self.replicas@.map_values(|r: Replica<L>| r.id)[i] == ids[i]);
                        assert(old(self).replicas@.map_values(|r: Replica<L>| r.id)[i] == ids[i]);
                    }
                    let cur = state_views(self.replicas@);
                    assert(run_rounds::<L>(cur, (max_rounds - k) as nat) == cur);
                    assert(run_versions::<L>(cur, versions(self.replicas@), (max_rounds - k) as nat) == versions(self.replicas@));
                }
                return true;
            }
            let ghost before = self.replicas@;
            self.gossip_round();
            proof {
                assert(self.replicas@.map_values(|r: Replica<L>| r.id) =~= before.map_values(|r: Replica<L>| r.id));
            }
            k += 1;
        }
        proof {
            assert(self.replicas@.len() == ids.len());
            assert forall|i: int| 0 <= i < self.replicas@.len() implies (#[trigger] self.replicas@[i]).id == old(self).replicas@[i].id by {
                assert(self.replicas@.map_values(|r: Replica<L>| r.id)[i] == ids[i]);
                assert(old(self).replicas@.map_values(|r: Replica<L>| r.id)[i] == ids[i]);
            }
        }
        self.is_converged()
    }

    /// Whether all replicas hold the same state.
    pub fn is_converged(&self) -> (r: bool)
        requires
            replicas_wf(self.replicas@),
        ensures
            r == converged(state_views(self.replicas@)),
    {
        let ghost s = state_views(self.replicas@);
        let n = self.replicas.len();
        if n <= 1 {
            return true;
        }
        let mut i: usize = 0;
        while i < n
            invariant
                i <= n,
                n == self.replicas@.len(),
                n > 1,
                replicas_wf(self.replicas@),
                s == state_views(self.replicas@),
                forall|k: int| 0 <= k < i ==> #[trigger] s[k] == s[0],
            decreases n - i,
        {
            if !self.replicas[i].state.same_state(&self.replicas[0].state) {
                assert(s[i as int] != s[0]);
                return false;
            }
            i += 1;
        }
        true
    }
}

/// After the joins of replica `i` up to position `u`, its view is its own
/// view joined with the join of the snapshot prefix.
proof fn lemma_absorb_is_join<L: BoundedJoinSemilattice>(s: Seq<L::V>, i: int, u: int)
    requires
        coherent::<L>(s),
        0 <= i < s.len(),
        0 <= u <= s.len(),
    ensures
        absorb::<L>(s[i], s, i, u) == L::join_model(s[i], fold_join::<L>(s.take(u))),
    decreases u,
{
    let x = s[i];
    L::lemma_unary_laws(x);
    if u == 0 {
        assert(s.take(0) =~= Seq::<L::V>::empty());
    } else {
        lemma_absorb_is_join::<L>(s, i, u - 1);
        lemma_fold_prefix::<L>(s, u - 1);
        let p = fold_join::<L>(s.take(u - 1));
        let y = s[u - 1];
        assert(s.take(u).drop_last() =~= s.take(u - 1));
        assert(fold_join::<L>(s.take(u)) == L::join_model(p, y));
        if u - 1 == i {
            L::lemma_binary_laws(p, x, x);
            L::lemma_binary_laws(x, x, p);
        } else {
            L::lemma_binary_laws(x, p, y);
        }
    }
}

/// One gossip round brings every replica of a coherent network to the join
/// of all states.
pub proof fn lemma_round_reaches_join<L: BoundedJoinSemilattice>(s: Seq<L::V>)
    requires
        coherent::<L>(s),
    ensures
        forall|i: int| 0 <= i < s.len() ==> #[trigger] round_states::<L>(s)[i] == fold_join::<L>(s),
        converged(round_states::<L>(s)),
{
    assert forall|i: int| 0 <= i < s.len() implies #[trigger] round_states::<L>(s)[i] == fold_join::<
        L,
    >(s) by {
        lemma_absorb_is_join::<L>(s, i, s.len() as int);
        assert(s.take(s.len() as int) =~= s);
        lemma_fold_absorbs::<L>(s);
    }
}

/// Gossip convergence: a coherent network gossiping for at least one round
/// converges, every replica holding the join of all the initial states.
pub proof fn lemma_gossip_converges<L: BoundedJoinSemilattice>(s: Seq<L::V>, k: nat)
    requires
        coherent::<L>(s),
        k >= 1,
    ensures
        converged(run_rounds::<L>(s, k)),
        forall|i: int| 0 <= i < s.len() ==> #[trigger] run_rounds::<L>(s, k)[i] == fold_join::<L>(s),
{
    lemma_round_reaches_join::<L>(s);
    if converged(s) {
        if s.len() > 0 {
            lemma_fold_absorbs::<L>(s);
            lemma_fold_prefix::<L>(s, 1);
            assert(s.take(1).drop_last() =~= Seq::<L::V>::empty());
            L::lemma_unary_laws(s[0]);
            L::lemma_binary_laws(L::bottom_model(), s[0], s[0]);
            assert forall|i: int| 0 <= i < s.len() implies #[trigger] s[i] == fold_join::<L>(s) by {
                assert(s[i] == s[0]);
                assert(L::join_model(s[0], fold_join::<L>(s)) == fold_join::<L>(s));
                lemma_round_reaches_join::<L>(s);
                assert(round_states::<L>(s)[i] == absorb::<L>(s[i], s, i, s.len() as int));
                lemma_absorb_all_same::<L>(s, i, s.len() as int);
            }
        }
    } else {
        let t = round_states::<L>(s);
        assert(run_rounds::<L>(t, (k - 1) as nat) == t);
    }
}

/// When all views are equal, joining them changes nothing.
proof fn lemma_absorb_all_same<L: BoundedJoinSemilattice>(s: Seq<L::V>, i: int, u: int)
    requires
        coherent::<L>(s),
        converged(s),
        0 <= i < s.len(),
        0 <= u <= s.len(),
    ensures
        absorb::<L>(s[i], s, i, u) == s[i],
    decreases u,
{
    if u > 0 {
        lemma_absorb_all_same::<L>(s, i, u - 1);
        L::lemma_unary_laws(s[i]);
        assert(s[u - 1] == s[0] && s[i] == s[0]);
    }
}

} // verus!
