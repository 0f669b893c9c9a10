//! The tree of nodes, its invariant, and the pending set that refers to it.

use crate::arena::{
    slot_nodes, slots_get, slots_insert, slots_key_of, slots_remove, slots_len, slots_new, slots_replace, Node, NodeSlots,
    NodeView,
};
use crate::pending::{path_lt, sorted_entries, Pending, PendingSet};
use vstd::prelude::*;

verus! {

/// The child indices from the root down to `k`, following at most `fuel`
/// parent links.
pub open spec fn path_of(m: Map<u64, NodeView>, k: u64, fuel: nat) -> Seq<usize>
    decreases fuel,
{
    if fuel == 0 || m[k].parent is None {
        seq![m[k].child_idx]
    } else {
        path_of(m, m[k].parent.unwrap(), (fuel - 1) as nat).push(m[k].child_idx)
    }
}

/// The root-to-node path of `k`.
pub open spec fn node_path(m: Map<u64, NodeView>, k: u64) -> Seq<usize> {
    path_of(m, k, m[k].depth)
}

/// The nodes form one tree under `root`; each child knows its parent and its
/// position, and each parent lists its children at those positions.
pub open spec fn tree_wf(m: Map<u64, NodeView>, root: u64) -> bool {
    &&& m.dom().finite()
    &&& m.contains_key(root)
    &&& m[root].parent is None
    &&& m[root].depth == 0
    &&& m[root].child_idx == 0
    &&& forall|k: u64| #[trigger] m.contains_key(k) && m[k].parent is None ==> k == root
    &&& forall|k: u64| #[trigger] m.contains_key(k) && m[k].parent is Some ==> {
        let p = m[k].parent.unwrap();
        &&& m.contains_key(p)
        &&& m[k].depth == m[p].depth + 1
        &&& m[k].child_idx < m[p].children.len()
        &&& m[p].children[m[k].child_idx as int] == k
    }
    &&& forall|k: u64, i: int|
        #![trigger m[k].children[i]]
        m.contains_key(k) && 0 <= i < m[k].children.len() ==> {
            let c = m[k].children[i];
            &&& m.contains_key(c)
            &&& m[c].parent == Some(k)
            &&& m[c].child_idx == i
        }
}

/// Every pending entry names a live node and carries that node's path.
pub open spec fn pending_wf(m: Map<u64, NodeView>, s: Seq<(u64, Seq<usize>)>) -> bool {
    forall|i: int|
        0 <= i < s.len() ==> m.contains_key(#[trigger] s[i].0) && s[i].1 == node_path(m, s[i].0)
}

/// A node below the root has its parent's path followed by its own position.
pub proof fn lemma_parent_path(m: Map<u64, NodeView>, root: u64, k: u64)
    requires
        tree_wf(m, root),
        m.contains_key(k),
        m[k].parent is Some,
    ensures
        node_path(m, k) == node_path(m, m[k].parent.unwrap()).push(m[k].child_idx),
{
}

/// A node's path has one index per level, its own included.
pub proof fn lemma_path_len(m: Map<u64, NodeView>, root: u64, k: u64)
    requires
        tree_wf(m, root),
        m.contains_key(k),
    ensures
        node_path(m, k).len() == m[k].depth + 1,
    decreases m[k].depth,
{
    if m[k].parent is Some {
        lemma_path_len(m, root, m[k].parent.unwrap());
    }
}

/// Two live nodes with the same path are the same node.
pub proof fn lemma_path_injective(m: Map<u64, NodeView>, root: u64, a: u64, b: u64)
    requires
        tree_wf(m, root),
        m.contains_key(a),
        m.contains_key(b),
        node_path(m, a) == node_path(m, b),
    ensures
        a == b,
    decreases m[a].depth,
{
    lemma_path_len(m, root, a);
    lemma_path_len(m, root, b);
    if m[a].parent is Some && m[b].parent is Some {
        let pa = m[a].parent.unwrap();
        let pb = m[b].parent.unwrap();
        lemma_parent_path(m, root, a);
        lemma_parent_path(m, root, b);
        let n = node_path(m, a).len() - 1;
        assert(node_path(m, pa) =~= node_path(m, a).subrange(0, n));
        assert(node_path(m, pb) =~= node_path(m, b).subrange(0, n));
        lemma_path_injective(m, root, pa, pb);
        assert(m[a].child_idx == node_path(m, a)[n]);
        assert(m[b].child_idx == node_path(m, b)[n]);
    }
}

/// Paths of nodes already in `m` only read parents, positions and depths, so
/// they stay as they were when a fresh child is added.
proof fn lemma_path_frame(m: Map<u64, NodeView>, m2: Map<u64, NodeView>, root: u64, k: u64, fuel: nat)
    requires
        tree_wf(m, root),
        m.contains_key(k),
        forall|j: u64| #[trigger] m.contains_key(j) ==> m2.contains_key(j)
            && m2[j].parent == m[j].parent && m2[j].child_idx == m[j].child_idx
            && m2[j].depth == m[j].depth,
    ensures
        path_of(m2, k, fuel) == path_of(m, k, fuel),
    decreases fuel,
{
    if fuel > 0 && m[k].parent is Some {
        lemma_path_frame(m, m2, root, m[k].parent.unwrap(), (fuel - 1) as nat);
    }
}

/// The tree, the pending set, and the node being executed.
pub struct Runtime {
    nodes: NodeSlots,
    pending: PendingSet,
    current_key: u64,
    root: u64,
}

impl Runtime {
    /// The live nodes by key.
    pub closed spec fn nodes(&self) -> Map<u64, NodeView> {
        slot_nodes(self.nodes)
    }

    /// The pending entries in document order.
    pub closed spec fn pending_view(&self) -> Seq<(u64, Seq<usize>)> {
        self.pending@
    }

    pub closed spec fn root_key(&self) -> u64 {
        self.root
    }

    pub closed spec fn current(&self) -> u64 {
        self.current_key
    }

    pub closed spec fn wf(&self) -> bool {
        &&& tree_wf(self.nodes(), self.root)
        &&& self.pending.wf()
        &&& pending_wf(self.nodes(), self.pending@)
    }

    /// A tree of one root node, with nothing pending.
    pub fn new(name: Option<String>) -> (r: Runtime)
        ensures
            r.wf(),
            r.nodes().dom() == set![r.root_key()],
            r.nodes()[r.root_key()].parent is None,
            r.nodes()[r.root_key()].children.len() == 0,
            r.nodes()[r.root_key()].name == (match name {
                Some(s) => Some(s@),
                None => None::<Seq<char>>,
            }),
            r.pending_view().len() == 0,
            r.current() == r.root_key(),
    {
        let mut nodes = slots_new();
        let root = slots_insert(
            &mut nodes,
            Node { parent: None, children: Vec::new(), child_idx: 0, name, depth: Ghost(0) },
        );
        let r = Runtime { nodes, pending: PendingSet::new(), current_key: root, root };
        proof {
            assert(r.nodes().dom() =~= set![root]);
        }
        r
    }

    /// The key of the root node.
    pub fn root(&self) -> (r: u64)
        ensures
            r == self.root_key(),
    {
        self.root
    }

    /// The key of the node that was last handed out for execution.
    pub fn current_key(&self) -> (r: u64)
        ensures
            r == self.current(),
    {
        self.current_key
    }

    pub(crate) fn set_current(&mut self, k: u64)
        requires
            old(self).wf(),
        ensures
            final(self).wf(),
            final(self).current() == k,
            final(self).nodes() == old(self).nodes(),
            final(self).pending_view() == old(self).pending_view(),
            final(self).root_key() == old(self).root_key(),
    {
        self.current_key = k;
    }

    /// The pending entry of a live node: its key and its root-to-node path,
    /// gathered innermost first along the parent links and then reversed.
    pub fn pending(&self, key: u64) -> (r: Pending)
        requires
            self.wf(),
            self.nodes().contains_key(key),
        ensures
            r.key == key,
            r.indices@ == node_path(self.nodes(), key),
    {
        let ghost m = self.nodes();
        let node = slots_get(&self.nodes, key);
        let mut indices: Vec<usize> = Vec::new();
        indices.push(node.child_idx);
        let mut parent = node.parent;
        proof {
            if parent is Some {
                lemma_parent_path(m, self.root, key);
            }
            assert(indices@.reverse() =~= seq![m[key].child_idx]);
        }
        loop
            invariant
                self.wf(),
                m == self.nodes(),
                m.contains_key(key),
                parent is None ==> node_path(m, key) == indices@.reverse(),
                parent is Some ==> m.contains_key(parent.unwrap()) && node_path(m, key)
                    == node_path(m, parent.unwrap()) + indices@.reverse(),
            ensures
                m == self.nodes(),
                node_path(m, key) == indices@.reverse(),
            decreases
                match parent {
                    Some(p) => m[p].depth + 1,
                    None => 0,
                },
        {
            match parent {
                None => break,
                Some(p) => {
                    let pn = slots_get(&self.nodes, p);
                    let ghost before = indices@;
                    indices.push(pn.child_idx);
                    proof {
                        assert(indices@.reverse() =~= seq![m[p].child_idx] + before.reverse());
                        if m[p].parent is Some {
                            lemma_parent_path(m, self.root, p);
                            assert(node_path(m, p) + before.reverse() =~= node_path(
                                m,
                                m[p].parent.unwrap(),
                            ) + indices@.reverse());
                        } else {
                            assert(node_path(m, p) =~= seq![m[p].child_idx]);
                            assert(node_path(m, p) + before.reverse() =~= indices@.reverse());
                        }
                    }
                    parent = pn.parent;
                },
            }
        }
        let mut out: Vec<usize> = Vec::new();
        let n = indices.len();
        let mut j: usize = 0;
        while j < n
            invariant
                n == indices.len(),
                0 <= j <= n,
                m == self.nodes(),
                node_path(m, key) == indices@.reverse(),
                out@.len() == j,
                forall|t: int| 0 <= t < j ==> out@[t] == indices@[n - 1 - t],
            decreases n - j,
        {
            out.push(indices[n - 1 - j]);
            j = j + 1;
        }
        proof {
            assert(out@ =~= indices@.reverse());
        }
        Pending { key, indices: out }
    }

    /// Marks a live node for recomposition; marking a pending node again
    /// changes nothing.
    pub fn queue(&mut self, key: u64)
        requires
            old(self).wf(),
            old(self).nodes().contains_key(key),
        ensures
            final(self).wf(),
            final(self).nodes() == old(self).nodes(),
            final(self).root_key() == old(self).root_key(),
            final(self).current() == old(self).current(),
            final(self).pending_view().to_set() == old(self).pending_view().to_set().insert(
                (key, node_path(old(self).nodes(), key)),
            ),
    {
        let p = self.pending(key);
        let ghost pv = p@;
        let ghost old_pending = self.pending@;
        let added = self.pending.insert(p);
        proof {
            let m = self.nodes();
            let s = self.pending@;
            if !added {
                let i = choose|i: int| 0 <= i < old_pending.len() && #[trigger] old_pending[i].1 == pv.1;
                assert(old_pending[i].1 == node_path(m, old_pending[i].0));
                lemma_path_injective(m, self.root, old_pending[i].0, key);
                assert(s.to_set() =~= old_pending.to_set().insert(pv));
            }
            assert forall|i: int| 0 <= i < s.len() implies m.contains_key(#[trigger] s[i].0)
                && s[i].1 == node_path(m, s[i].0) by {
                assert(s.to_set().contains(s[i]));
                if s[i] != pv {
                    assert(old_pending.to_set().contains(s[i]));
                    let k = choose|k: int| 0 <= k < old_pending.len() && old_pending[k] == s[i];
                    assert(m.contains_key(old_pending[k].0));
                }
            }
        }
    }

    /// Adds a new last child under a live node and marks it pending, so its
    /// first execution comes after its parent's and before the parent's later
    /// siblings'.
    pub fn create_child(&mut self, parent: u64, name: Option<String>) -> (c: u64)
        requires
            old(self).wf(),
            old(self).nodes().contains_key(parent),
            old(self).nodes().len() < u32::MAX - 1,
        ensures
            final(self).wf(),
            !old(self).nodes().contains_key(c),
            final(self).nodes() == old(self).nodes().insert(
                c,
                NodeView {
                    parent: Some(parent),
                    children: Seq::empty(),
                    child_idx: old(self).nodes()[parent].children.len() as usize,
                    name: match name {
                        Some(s) => Some(s@),
                        None => None::<Seq<char>>,
                    },
                    depth: old(self).nodes()[parent].depth + 1,
                },
            ).insert(
                parent,
                NodeView {
                    children: old(self).nodes()[parent].children.push(c),
                    ..old(self).nodes()[parent]
                },
            ),
            node_path(final(self).nodes(), c) == node_path(old(self).nodes(), parent).push(
                old(self).nodes()[parent].children.len() as usize,
            ),
            final(self).pending_view().to_set() == old(self).pending_view().to_set().insert(
                (c, node_path(final(self).nodes(), c)),
            ),
            final(self).root_key() == old(self).root_key(),
            final(self).current() == old(self).current(),
    {
        let ghost m = self.nodes();
        let idx = slots_get(&self.nodes, parent).children.len();
        let ghost depth = m[parent].depth + 1;
        let c = slots_insert(
            &mut self.nodes,
            Node { parent: Some(parent), children: Vec::new(), child_idx: idx, name, depth: Ghost(depth) },
        );
        let ghost m1 = self.nodes();
        let mut pnode = slots_replace(
            &mut self.nodes,
            parent,
            Node { parent: None, children: Vec::new(), child_idx: 0, name: None, depth: Ghost(0) },
        );
        pnode.children.push(c);
        let _ = slots_replace(&mut self.nodes, parent, pnode);
        proof {
            let m2 = self.nodes();
            assert(m2 == m1.insert(parent, pnode@));
            assert forall|j: u64| #[trigger] m.contains_key(j) implies m2.contains_key(j)
                && m2[j].parent == m[j].parent && m2[j].child_idx == m[j].child_idx
                && m2[j].depth == m[j].depth by {}
            assert forall|j: u64| #[trigger] m.contains_key(j) implies node_path(m2, j) == node_path(m, j) by {
                lemma_path_frame(m, m2, self.root, j, m[j].depth);
            }
            assert(tree_wf(m2, self.root)) by {
                assert forall|k: u64| #[trigger] m2.contains_key(k) && m2[k].parent is Some implies {
                    let p = m2[k].parent.unwrap();
                    &&& m2.contains_key(p)
                    &&& m2[k].depth == m2[p].depth + 1
                    &&& m2[k].child_idx < m2[p].children.len()
                    &&& m2[p].children[m2[k].child_idx as int] == k
                } by {
                    if k != c {
                        assert(m.contains_key(k));
                    }
                }
                assert forall|k: u64, i: int| m2.contains_key(k) && 0 <= i < m2[k].children.len() implies {
                    let ch = #[trigger] m2[k].children[i];
                    &&& m2.contains_key(ch)
                    &&& m2[ch].parent == Some(k)
                    &&& m2[ch].child_idx == i
                } by {
                    if k == parent {
                        if i < m[parent].children.len() {
                            assert(m2[k].children[i] == m[parent].children[i]);
                        }
                    } else if k != c {
                        assert(m[k].children[i] == m2[k].children[i]);
                    }
                }
            }
            assert(pending_wf(m2, self.pending@)) by {
                assert forall|i: int| 0 <= i < self.pending@.len() implies m2.contains_key(
                    #[trigger] self.pending@[i].0,
                ) && self.pending@[i].1 == node_path(m2, self.pending@[i].0) by {
                    assert(m.contains_key(self.pending@[i].0));
                }
            }
            lemma_parent_path(m2, self.root, c);
        }
        self.queue(c);
        c
    }

    /// Removes the first pending entry in document order, if any.
    pub(crate) fn take_next(&mut self) -> (r: Option<Pending>)
        requires
            old(self).wf(),
        ensures
            final(self).wf(),
            final(self).nodes() == old(self).nodes(),
            final(self).root_key() == old(self).root_key(),
            final(self).current() == old(self).current(),
            old(self).pending_view().len() == 0 ==> r.is_none() && final(self).pending_view()
                == old(self).pending_view(),
            old(self).pending_view().len() > 0 ==> r.is_some() && r.unwrap()@
                == old(self).pending_view()[0] && final(self).pending_view()
                == old(self).pending_view().drop_first(),
    {
        let r = self.pending.pop_first();
        proof {
            let s = self.pending@;
            assert forall|i: int| 0 <= i < s.len() implies self.nodes().contains_key(
                #[trigger] s[i].0,
            ) && s[i].1 == node_path(self.nodes(), s[i].0) by {
                assert(s[i] == old(self).pending@[i + 1]);
            }
        }
        r
    }

    /// The number of live nodes.
    pub fn len(&self) -> (r: usize)
        ensures
            r == self.nodes().len(),
    {
        slots_len(&self.nodes)
    }

    /// Whether `k` names a live node.
    pub fn contains(&self, k: u64) -> (r: bool)
        ensures
            r == self.nodes().contains_key(k),
    {
        match slots_key_of(&self.nodes, k) {
            Some(found) => found == k,
            None => false,
        }
    }

    /// The children of a live node, in creation order.
    pub fn children(&self, k: u64) -> (r: &Vec<u64>)
        requires
            self.wf(),
            self.nodes().contains_key(k),
        ensures
            r@ == self.nodes()[k].children,
    {
        &slots_get(&self.nodes, k).children
    }

    /// The parent of a live node; the root has none.
    pub fn parent(&self, k: u64) -> (r: Option<u64>)
        requires
            self.nodes().contains_key(k),
        ensures
            r == self.nodes()[k].parent,
    {
        slots_get(&self.nodes, k).parent
    }

    /// The position of a live node among its siblings.
    pub fn child_idx(&self, k: u64) -> (r: usize)
        requires
            self.nodes().contains_key(k),
        ensures
            r == self.nodes()[k].child_idx,
    {
        slots_get(&self.nodes, k).child_idx
    }

    /// The debug name of a live node, if it has one.
    pub fn name(&self, k: u64) -> (r: &Option<String>)
        requires
            self.nodes().contains_key(k),
        ensures
            r.is_some() == self.nodes()[k].name.is_some(),
            r.is_some() ==> r.unwrap()@ == self.nodes()[k].name.unwrap(),
    {
        &slots_get(&self.nodes, k).name
    }

    /// Whether nothing is pending.
    pub fn is_idle(&self) -> (r: bool)
        ensures
            r == (self.pending_view().len() == 0),
    {
        self.pending.is_empty()
    }
}

/// The subtree of `k` in post-order (children, left to right, before the
/// node itself), looking at most `fuel` levels down.
pub open spec fn postorder(m: Map<u64, NodeView>, k: u64, fuel: nat) -> Seq<u64>
    decreases fuel, 0nat,
{
    if fuel == 0 {
        Seq::empty()
    } else {
        postorder_list(m, m[k].children, (fuel - 1) as nat).push(k)
    }
}

/// The post-orders of the subtrees of `ks`, one after another.
pub open spec fn postorder_list(m: Map<u64, NodeView>, ks: Seq<u64>, fuel: nat) -> Seq<u64>
    decreases fuel, ks.len(),
{
    if ks.len() == 0 {
        Seq::empty()
    } else {
        postorder_list(m, ks.drop_last(), fuel) + postorder(m, ks.last(), fuel)
    }
}

impl Runtime {
    fn collect_postorder(&self, k: u64, fuel: usize, out: &mut Vec<u64>)
        requires
            self.wf(),
            self.nodes().contains_key(k),
        ensures
            final(out)@ == old(out)@ + postorder(self.nodes(), k, fuel as nat),
        decreases fuel, 0nat,
    {
        if fuel == 0 {
            assert(out@ =~= out@ + Seq::<u64>::empty());
            return;
        }
        let children = self.children(k);
        self.collect_list(children, children.len(), fuel - 1, out);
        out.push(k);
        proof {
            assert(children@.subrange(0, children@.len() as int) =~= children@);
            assert(out@ =~= old(out)@ + postorder(self.nodes(), k, fuel as nat));
        }
    }

    fn collect_list(&self, ks: &Vec<u64>, n: usize, fuel: usize, out: &mut Vec<u64>)
        requires
            self.wf(),
            n <= ks@.len(),
            forall|i: int| 0 <= i < ks@.len() ==> self.nodes().contains_key(#[trigger] ks@[i]),
        ensures
            final(out)@ == old(out)@ + postorder_list(self.nodes(), ks@.subrange(0, n as int), fuel as nat),
        decreases fuel, n,
    {
        if n == 0 {
            assert(out@ =~= out@ + Seq::<u64>::empty());
            return;
        }
        self.collect_list(ks, n - 1, fuel, out);
        self.collect_postorder(ks[n - 1], fuel, out);
        proof {
            let s = ks@.subrange(0, n as int);
            assert(s.drop_last() =~= ks@.subrange(0, n - 1));
            assert(s.last() == ks@[n - 1]);
            assert(out@ =~= old(out)@ + postorder_list(self.nodes(), s, fuel as nat));
        }
    }

    /// Tears the tree down: removes every node from the arena, each node's
    /// children before the node, and returns the keys in removal order. The
    /// runtime holds no tree afterwards.
    pub fn teardown(&mut self) -> (removed: Vec<u64>)
        requires
            old(self).wf(),
        ensures
            removed@ == postorder(old(self).nodes(), old(self).root_key(), old(self).nodes().len()),
            forall|k: u64| #[trigger] old(self).nodes().contains_key(k) ==> removed@.contains(k),
            final(self).nodes().dom() == Set::<u64>::empty(),
    {
        let ghost m = self.nodes();
        proof {
            assert forall|k: u64| #[trigger] m.contains_key(k) implies postorder(
                m,
                self.root,
                m.len(),
            ).contains(k) by {
                lemma_postorder_complete(m, self.root, k);
            }
        }
        let mut order: Vec<u64> = Vec::new();
        self.collect_postorder(self.root, slots_len(&self.nodes), &mut order);
        let mut i: usize = 0;
        while i < order.len()
            invariant
                0 <= i <= order@.len(),
                forall|k: u64| #[trigger] m.contains_key(k) ==> order@.contains(k),
                forall|k: u64| #[trigger] self.nodes().contains_key(k) == (m.contains_key(k)
                    && !order@.subrange(0, i as int).contains(k)),
            decreases order.len() - i,
        {
            let ghost before = self.nodes();
            if let Some(found) = slots_key_of(&self.nodes, order[i]) {
                if found == order[i] {
                    let _ = slots_remove(&mut self.nodes, found);
                }
            }
            proof {
                assert forall|k: u64| #[trigger] self.nodes().contains_key(k) == (m.contains_key(k)
                    && !order@.subrange(0, i + 1).contains(k)) by {
                    assert(order@.subrange(0, i + 1) =~= order@.subrange(0, i as int).push(order@[i as int]));
                    let short = order@.subrange(0, i as int);
                    let long = order@.subrange(0, i + 1);
                    if short.contains(k) {
                        let j = choose|j: int| 0 <= j < short.len() && short[j] == k;
                        assert(long[j] == k);
                    }
                    if long.contains(k) && k != order@[i as int] {
                        let j = choose|j: int| 0 <= j < long.len() && long[j] == k;
                        assert(short[j] == k);
                    }
                    if k == order@[i as int] {
                        assert(order@.subrange(0, i + 1)[i as int] == k);
                    }
                }
            }
            i = i + 1;
        }
        proof {
            assert(order@.subrange(0, order@.len() as int) =~= order@);
            assert(self.nodes().dom() =~= Set::<u64>::empty());
        }
        order
    }
}

/// The keys on the way from `k` up to the root, `k` included.
pub open spec fn ancestors(m: Map<u64, NodeView>, k: u64, fuel: nat) -> Set<u64>
    decreases fuel,
{
    if fuel == 0 || m[k].parent is None {
        set![k]
    } else {
        ancestors(m, m[k].parent.unwrap(), (fuel - 1) as nat).insert(k)
    }
}

proof fn lemma_ancestors(m: Map<u64, NodeView>, root: u64, k: u64)
    requires
        tree_wf(m, root),
        m.contains_key(k),
    ensures
        ancestors(m, k, m[k].depth).finite(),
        ancestors(m, k, m[k].depth).len() == m[k].depth + 1,
        ancestors(m, k, m[k].depth).subset_of(m.dom()),
        forall|x: u64| #[trigger] ancestors(m, k, m[k].depth).contains(x) ==> m[x].depth <= m[k].depth,
    decreases m[k].depth,
{
    if m[k].parent is Some {
        let p = m[k].parent.unwrap();
        lemma_ancestors(m, root, p);
        assert(!ancestors(m, p, m[p].depth).contains(k));
    } else {
        assert(set![k].len() == 1) by {
            assert(set![k] =~= Set::<u64>::empty().insert(k));
        }
    }
}

/// Every path is shorter than the number of nodes.
pub proof fn lemma_depth_bound(m: Map<u64, NodeView>, root: u64, k: u64)
    requires
        tree_wf(m, root),
        m.contains_key(k),
    ensures
        m[k].depth < m.len(),
{
    lemma_ancestors(m, root, k);
    vstd::set_lib::lemma_len_subset(ancestors(m, k, m[k].depth), m.dom());
}

proof fn lemma_postorder_has_self(m: Map<u64, NodeView>, k: u64, fuel: nat)
    requires
        fuel >= 1,
    ensures
        postorder(m, k, fuel).contains(k),
{
    let s = postorder(m, k, fuel);
    assert(s[s.len() - 1] == k);
}

proof fn lemma_list_covers(m: Map<u64, NodeView>, ks: Seq<u64>, i: int, fuel: nat, x: u64)
    requires
        0 <= i < ks.len(),
        postorder(m, ks[i], fuel).contains(x),
    ensures
        postorder_list(m, ks, fuel).contains(x),
    decreases ks.len(),
{
    let a = postorder_list(m, ks.drop_last(), fuel);
    let b = postorder(m, ks.last(), fuel);
    if i == ks.len() - 1 {
        let j = choose|j: int| 0 <= j < b.len() && b[j] == x;
        assert((a + b)[a.len() + j] == x);
    } else {
        lemma_list_covers(m, ks.drop_last(), i, fuel, x);
        let j = choose|j: int| 0 <= j < a.len() && a[j] == x;
        assert((a + b)[j] == x);
    }
}

proof fn lemma_subtree_in_root(m: Map<u64, NodeView>, root: u64, k: u64, fuel: nat, x: u64)
    requires
        tree_wf(m, root),
        m.contains_key(k),
        fuel > m[k].depth,
        postorder(m, k, (fuel - m[k].depth) as nat).contains(x),
    ensures
        postorder(m, root, fuel).contains(x),
    decreases m[k].depth,
{
    if m[k].parent is Some {
        let p = m[k].parent.unwrap();
        let g = (fuel - m[p].depth) as nat;
        let kids = m[p].children;
        lemma_list_covers(m, kids, m[k].child_idx as int, (g - 1) as nat, x);
        let l = postorder_list(m, kids, (g - 1) as nat);
        let j = choose|j: int| 0 <= j < l.len() && l[j] == x;
        assert(postorder(m, p, g) == l.push(p));
        assert(l.push(p)[j] == x);
        lemma_subtree_in_root(m, root, p, fuel, x);
    }
}

/// With as much fuel as there are nodes, the post-order of the root holds
/// every node.
pub proof fn lemma_postorder_complete(m: Map<u64, NodeView>, root: u64, k: u64)
    requires
        tree_wf(m, root),
        m.contains_key(k),
    ensures
        postorder(m, root, m.len()).contains(k),
{
    lemma_depth_bound(m, root, k);
    lemma_postorder_has_self(m, k, (m.len() - m[k].depth) as nat);
    lemma_subtree_in_root(m, root, k, m.len(), k);
}

/// In a well-formed runtime the pending entries are sorted in document
/// order and each carries the current path of a live node.
pub proof fn lemma_pending_paths(rt: &Runtime)
    requires
        rt.wf(),
    ensures
        sorted_entries(rt.pending_view()),
        pending_wf(rt.nodes(), rt.pending_view()),
        tree_wf(rt.nodes(), rt.root_key()),
{
}

} // verus!
