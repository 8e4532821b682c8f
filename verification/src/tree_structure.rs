//! The tree structure: the nodes of the tree, each with its parent, its
//! ordered children, its fractional index and its edge map.
use vstd::prelude::*;

use crate::edge_map::EdgeMap;
use crate::fractional::FractionalIndex;
use crate::model::{
    IdV, NodeV, ancestor, lemma_ancestor_cycle, lemma_ancestor_none, lemma_ancestor_repeats,
    lemma_ancestor_shift, parent_in, reaches,
};
use crate::node::NodeId;

verus! {

/// A node of the tree structure.
pub struct TreeNode {
    pub id: NodeId,
    pub parent_id: Option<NodeId>,
    pub children: Vec<NodeId>,
    pub fi: FractionalIndex,
    pub edge_map: EdgeMap,
}

/// The value of an optional id.
pub open spec fn opt_id_view(o: Option<NodeId>) -> Option<IdV> {
    match o {
        Some(x) => Some(x@),
        None => None,
    }
}

/// The values of a list of ids.
pub open spec fn ids_view(v: Seq<NodeId>) -> Seq<IdV> {
    v.map_values(|x: NodeId| x@)
}

impl View for TreeNode {
    type V = NodeV;

    open spec fn view(&self) -> NodeV {
        NodeV {
            parent: opt_id_view(self.parent_id),
            children: ids_view(self.children@),
            fi: self.fi@,
            edges: self.edge_map@,
        }
    }
}

/// Some node of the list has id `x`.
pub open spec fn has_id(s: Seq<TreeNode>, x: IdV) -> bool {
    exists|i: int| 0 <= i < s.len() && (#[trigger] s[i]).id@ == x
}

/// No two nodes of the list have the same id.
pub open spec fn ids_distinct(s: Seq<TreeNode>) -> bool {
    forall|i: int, j: int| 0 <= i < j < s.len() ==> (#[trigger] s[i]).id@ != (#[trigger] s[j]).id@
}

/// The position of the node with id `x`.
pub open spec fn index_of_id(s: Seq<TreeNode>, x: IdV) -> int {
    choose|i: int| 0 <= i < s.len() && (#[trigger] s[i]).id@ == x
}

/// The nodes of a list, by id.
pub open spec fn nodes_view(s: Seq<TreeNode>) -> Map<IdV, NodeV> {
    Map::new(|x: IdV| has_id(s, x), |x: IdV| s[index_of_id(s, x)]@)
}

pub proof fn lemma_view_index(s: Seq<TreeNode>, i: int)
    requires
        ids_distinct(s),
        0 <= i < s.len(),
    ensures
        nodes_view(s).contains_key(s[i].id@),
        nodes_view(s)[s[i].id@] == s[i]@,
        index_of_id(s, s[i].id@) == i,
{
    assert(has_id(s, s[i].id@));
    let j = index_of_id(s, s[i].id@);
    if j != i {
        if j < i {
            assert(s[j].id@ != s[i].id@);
        } else {
            assert(s[i].id@ != s[j].id@);
        }
    }
}

pub proof fn lemma_view_update(s: Seq<TreeNode>, i: int, n: TreeNode)
    requires
        ids_distinct(s),
        0 <= i < s.len(),
        n.id@ == s[i].id@,
    ensures
        ids_distinct(s.update(i, n)),
        nodes_view(s.update(i, n)) == nodes_view(s).insert(n.id@, n@),
{
    let t = s.update(i, n);
    assert forall|a: int, b: int| 0 <= a < b < t.len() implies (#[trigger] t[a]).id@
        != (#[trigger] t[b]).id@ by {
        assert(s[a].id@ != s[b].id@);
    }
    let v = nodes_view(t);
    let w = nodes_view(s).insert(n.id@, n@);
    assert forall|x: IdV| v.contains_key(x) <==> w.contains_key(x) by {
        if has_id(t, x) {
            let j = choose|j: int| 0 <= j < t.len() && (#[trigger] t[j]).id@ == x;
            assert(s[j].id@ == x);
        }
        if has_id(s, x) {
            let j = choose|j: int| 0 <= j < s.len() && (#[trigger] s[j]).id@ == x;
            assert(t[j].id@ == x);
        }
    }
    assert forall|x: IdV| v.contains_key(x) implies v[x] == w[x] by {
        let j = choose|j: int| 0 <= j < t.len() && (#[trigger] t[j]).id@ == x;
        lemma_view_index(t, j);
        if j != i {
            lemma_view_index(s, j);
        }
    }
    assert(v =~= w);
}

pub proof fn lemma_view_push(s: Seq<TreeNode>, n: TreeNode)
    requires
        ids_distinct(s),
        !has_id(s, n.id@),
    ensures
        ids_distinct(s.push(n)),
        nodes_view(s.push(n)) == nodes_view(s).insert(n.id@, n@),
{
    let t = s.push(n);
    assert forall|a: int, b: int| 0 <= a < b < t.len() implies (#[trigger] t[a]).id@
        != (#[trigger] t[b]).id@ by {
        if b < s.len() {
            assert(s[a].id@ != s[b].id@);
        } else {
            assert(s[a].id@ == t[a].id@);
        }
    }
    let v = nodes_view(t);
    let w = nodes_view(s).insert(n.id@, n@);
    assert forall|x: IdV| v.contains_key(x) <==> w.contains_key(x) by {
        if has_id(t, x) {
            let j = choose|j: int| 0 <= j < t.len() && (#[trigger] t[j]).id@ == x;
            if j < s.len() {
                assert(s[j].id@ == x);
            }
        }
        if has_id(s, x) {
            let j = choose|j: int| 0 <= j < s.len() && (#[trigger] s[j]).id@ == x;
            assert(t[j].id@ == x);
        }
        if x == n.id@ {
            assert(t[s.len() as int].id@ == x);
        }
    }
    assert forall|x: IdV| v.contains_key(x) implies v[x] == w[x] by {
        let j = choose|j: int| 0 <= j < t.len() && (#[trigger] t[j]).id@ == x;
        lemma_view_index(t, j);
        if j < s.len() {
            lemma_view_index(s, j);
        }
    }
    assert(v =~= w);
}

/// Ids of the first `n` nodes.
spec fn ids_upto(s: Seq<TreeNode>, n: int) -> Set<IdV> {
    Set::new(|x: IdV| exists|i: int| 0 <= i < n && (#[trigger] s[i]).id@ == x)
}

proof fn lemma_ids_upto_len(s: Seq<TreeNode>, n: int)
    requires
        ids_distinct(s),
        0 <= n <= s.len(),
    ensures
        ids_upto(s, n).finite(),
        ids_upto(s, n).len() == n,
    decreases n,
{
    if n == 0 {
        assert(ids_upto(s, 0) =~= Set::empty());
    } else {
        lemma_ids_upto_len(s, n - 1);
        assert(ids_upto(s, n) =~= ids_upto(s, n - 1).insert(s[n - 1].id@));
        if ids_upto(s, n - 1).contains(s[n - 1].id@) {
            let i = choose|i: int| 0 <= i < n - 1 && (#[trigger] s[i]).id@ == s[n - 1].id@;
        }
    }
}

pub proof fn lemma_view_len(s: Seq<TreeNode>)
    requires
        ids_distinct(s),
    ensures
        nodes_view(s).dom().finite(),
        nodes_view(s).dom().len() == s.len(),
{
    lemma_ids_upto_len(s, s.len() as int);
    assert(nodes_view(s).dom() =~= ids_upto(s, s.len() as int));
}

/// The structure of a tree: its nodes, each once, and the edges that were
/// added while repairing the tree and still have to be written back.
pub struct TreeStructure {
    pub nodes: Vec<TreeNode>,
    pub pending_edge_map_updates: Vec<(NodeId, NodeId, i64)>,
}

/// The value of a pending edge update: (node, parent, edge value).
pub open spec fn pending_view(v: Seq<(NodeId, NodeId, i64)>) -> Seq<(IdV, IdV, i64)> {
    v.map_values(|e: (NodeId, NodeId, i64)| (e.0@, e.1@, e.2))
}

impl View for TreeStructure {
    type V = Map<IdV, NodeV>;

    open spec fn view(&self) -> Map<IdV, NodeV> {
        nodes_view(self.nodes@)
    }
}

impl TreeStructure {
    /// No two nodes have the same id.
    pub open spec fn wf(&self) -> bool {
        ids_distinct(self.nodes@)
    }

    /// The edge updates that repairing the tree made and that have not been
    /// written back to the document yet.
    pub open spec fn pending(&self) -> Seq<(IdV, IdV, i64)> {
        pending_view(self.pending_edge_map_updates@)
    }

    /// An empty structure.
    pub fn new() -> (r: TreeStructure)
        ensures
            r.wf(),
            r@ == Map::<IdV, NodeV>::empty(),
            r.pending() == Seq::<(IdV, IdV, i64)>::empty(),
    {
        let r = TreeStructure { nodes: Vec::new(), pending_edge_map_updates: Vec::new() };
        assert(r@ =~= Map::<IdV, NodeV>::empty());
        assert(r.pending() =~= Seq::<(IdV, IdV, i64)>::empty());
        r
    }

    /// The number of nodes.
    pub fn len(&self) -> (r: usize)
        requires
            self.wf(),
        ensures
            r == self@.len(),
    {
        proof {
            lemma_view_len(self.nodes@);
        }
        self.nodes.len()
    }

    /// The position of the node with the given id.
    pub fn find(&self, id: &NodeId) -> (r: Option<usize>)
        requires
            self.wf(),
        ensures
            r matches Some(i) ==> i < self.nodes@.len() && self.nodes@[i as int].id@ == id@,
            r is None <==> !self@.contains_key(id@),
    {
        let mut i: usize = 0;
        while i < self.nodes.len()
            invariant
                i <= self.nodes.len(),
                forall|j: int| 0 <= j < i ==> self.nodes@[j].id@ != id@,
            decreases self.nodes.len() - i,
        {
            if self.nodes[i].id.same(id) {
                proof {
                    assert(has_id(self.nodes@, id@));
                }
                return Some(i);
            }
            i = i + 1;
        }
        None
    }

    /// The node with the given id.
    pub fn get_node(&self, id: &NodeId) -> (r: Option<&TreeNode>)
        requires
            self.wf(),
        ensures
            r is Some <==> self@.contains_key(id@),
            r matches Some(n) ==> n.id@ == id@ && n@ == self@[id@],
    {
        match self.find(id) {
            Some(i) => {
                proof {
                    lemma_view_index(self.nodes@, i as int);
                }
                Some(&self.nodes[i])
            },
            None => None,
        }
    }

    /// The children of the node with the given id, in order.
    pub fn get_children(&self, id: &NodeId) -> (r: Option<&Vec<NodeId>>)
        requires
            self.wf(),
        ensures
            r is Some <==> self@.contains_key(id@),
            r matches Some(c) ==> ids_view(c@) == self@[id@].children,
    {
        match self.get_node(id) {
            Some(n) => Some(&n.children),
            None => None,
        }
    }

    /// The parent of the node with the given id.
    pub fn get_parent(&self, id: &NodeId) -> (r: Option<&NodeId>)
        requires
            self.wf(),
        ensures
            r matches Some(p) ==> parent_in(self@, id@) == Some(p@),
            r is None ==> parent_in(self@, id@) is None,
    {
        match self.get_node(id) {
            Some(n) => match &n.parent_id {
                Some(p) => Some(p),
                None => None,
            },
            None => None,
        }
    }

    /// The parent of the node with the given id, as a new id.
    fn parent_of(&self, id: &NodeId) -> (r: Option<NodeId>)
        requires
            self.wf(),
        ensures
            opt_id_view(r) == parent_in(self@, id@),
    {
        match self.get_parent(id) {
            Some(p) => Some(p.clone()),
            None => None,
        }
    }

    /// Whether following parent links from `id` leads to `target` (see
    /// `reaches`). Walks the chain of ancestors with two pointers, one twice
    /// as fast as the other, and stops when they meet on a cycle.
    pub fn can_reach(&self, id: &NodeId, target: &NodeId) -> (r: bool)
        requires
            self.wf(),
        ensures
            r == reaches(self@, id@, target@),
    {
        let ghost m = self@;
        let ghost x = id@;
        let ghost n: nat = self@.dom().len();
        proof {
            lemma_view_len(self.nodes@);
        }
        let mut tortoise = id.clone();
        let mut hare = match self.parent_of(id) {
            Some(parent) => parent,
            None => {
                return id.same(target);
            },
        };
        let ghost mut t: nat = 0;
        assert(ancestor(m, x, 1) == parent_in(m, x));
        while !hare.same(target)
            invariant
                self.wf(),
                m == self@,
                x == id@,
                m.dom().finite(),
                m.dom().len() == n,
                parent_in(m, x) is Some,
                ancestor(m, x, t) == Some(tortoise@),
                ancestor(m, x, 2 * t + 1) == Some(hare@),
                forall|k: nat| 1 <= k <= 2 * t ==> ancestor(m, x, k) != Some(target@),
                forall|s: nat| s < t ==> #[trigger] pointers_differ(m, x, s),
                t <= n,
            decreases n - t,
        {
            assert(ancestor(m, x, 2 * t + 1) != Some(target@));
            let ghost h1 = (2 * t + 2) as nat;
            match self.parent_of(&hare) {
                Some(parent) => {
                    hare = parent;
                },
                None => {
                    proof {
                        assert(ancestor(m, x, h1) is None);
                        self.lemma_not_reached(x, target@, h1, t);
                    }
                    return false;
                },
            }
            assert(ancestor(m, x, h1) == Some(hare@));
            if hare.same(target) {
                return true;
            }
            let ghost h2 = (2 * t + 3) as nat;
            match self.parent_of(&hare) {
                Some(parent) => {
                    hare = parent;
                },
                None => {
                    proof {
                        assert(ancestor(m, x, h2) is None);
                        self.lemma_not_reached(x, target@, h2, t);
                    }
                    return false;
                },
            }
            assert(ancestor(m, x, h2) == Some(hare@));
            if hare.same(target) {
                return true;
            }
            tortoise = match self.parent_of(&tortoise) {
                Some(parent) => parent,
                None => tortoise,
            };
            proof {
                assert(ancestor(m, x, t + 1) == match ancestor(m, x, t) {
                    Some(y) => parent_in(m, y),
                    None => None,
                });
                if ancestor(m, x, t + 1) is None {
                    lemma_ancestor_none(m, x, t + 1, h2);
                }
                assert(ancestor(m, x, t + 1) == Some(tortoise@));
            }
            if tortoise.same(&hare) {
                proof {
                    assert forall|k: nat| k >= 1 implies ancestor(m, x, k) != Some(target@) by {
                        let j = lemma_ancestor_cycle(m, x, t + 1, h2, k);
                    }
                }
                return false;
            }
            proof {
                assert(pointers_differ(m, x, t));
                self.lemma_meets_in_time(x, t, n);
            }
            proof {
                t = t + 1;
            }
        }
        proof {
            assert(ancestor(m, x, 2 * t + 1) == Some(target@));
        }
        true
    }

    /// The chain of ancestors ended at step `e` without meeting the target.
    proof fn lemma_not_reached(&self, x: IdV, target: IdV, e: nat, t: nat)
        requires
            parent_in(self@, x) is Some,
            ancestor(self@, x, e) is None,
            e == 2 * t + 2 || e == 2 * t + 3,
            forall|k: nat| 1 <= k <= 2 * t ==> ancestor(self@, x, k) != Some(target),
            ancestor(self@, x, 2 * t + 1) != Some(target),
            e == 2 * t + 3 ==> ancestor(self@, x, 2 * t + 2) != Some(target),
        ensures
            !reaches(self@, x, target),
    {
        assert forall|k: nat| k >= 1 implies ancestor(self@, x, k) != Some(target) by {
            if k >= e {
                lemma_ancestor_none(self@, x, e, k);
            }
        }
    }

    /// While the two pointers have not met, the walk stays shorter than the
    /// number of nodes.
    proof fn lemma_meets_in_time(&self, x: IdV, t: nat, n: nat)
        requires
            self@.dom().finite(),
            self@.dom().len() == n,
            ancestor(self@, x, 2 * t + 3) is Some,
            forall|s: nat| s <= t ==> #[trigger] pointers_differ(self@, x, s),
        ensures
            t + 1 <= n,
    {
        let m = self@;
        if t + 1 > n {
            lemma_ancestor_none_contra(m, x, n + 2, 2 * t + 3);
            let (a, b) = lemma_ancestor_repeats(m, x, n);
            let p = (b - a) as nat;
            // The first multiple of p that is at least a + 1, minus 2.
            let q = first_multiple(p, a + 1);
            let s = (q - 2) as nat;
            assert(s + 1 >= a);
            assert(s <= t);
            lemma_ancestor_multiple(m, x, a, b, s + 1, q);
            assert(ancestor(m, x, s + 1) == ancestor(m, x, 2 * s + 3));
            assert(!pointers_differ(m, x, s));
        }
    }
}

/// The slow pointer (step `s + 1`) and the fast one (step `2s + 3`) are on
/// different nodes after round `s`.
pub open spec fn pointers_differ(m: Map<IdV, NodeV>, x: IdV, s: nat) -> bool {
    ancestor(m, x, s + 1) != ancestor(m, x, 2 * s + 3)
}

/// When a later ancestor exists, every earlier one does.
proof fn lemma_ancestor_none_contra(m: Map<IdV, NodeV>, x: IdV, a: nat, b: nat)
    requires
        a <= b,
        ancestor(m, x, b) is Some,
    ensures
        ancestor(m, x, a) is Some,
{
    if ancestor(m, x, a) is None {
        lemma_ancestor_none(m, x, a, b);
    }
}

/// The smallest multiple of `p` that is at least `lo`.
proof fn first_multiple(p: nat, lo: nat) -> (q: nat)
    requires
        p >= 1,
        lo >= 1,
    ensures
        q >= lo,
        q < lo + p,
        q % p == 0,
        q >= 2 || lo <= 1,
    decreases lo,
{
    if lo <= p {
        p
    } else {
        let q0 = first_multiple(p, (lo - p) as nat);
        assert((q0 + p) % p == 0) by (nonlinear_arith)
            requires
                q0 % p == 0,
                p >= 1,
        ;
        q0 + p
    }
}

/// On a cycle of length `p` entered by step `a`, steps `c` and `c + q` are
/// the same node whenever `q` is a multiple of `p`.
proof fn lemma_ancestor_multiple(m: Map<IdV, NodeV>, x: IdV, a: nat, b: nat, c: nat, q: nat)
    requires
        1 <= a < b,
        ancestor(m, x, a) == ancestor(m, x, b),
        c >= a,
        q % ((b - a) as nat) == 0,
    ensures
        ancestor(m, x, c) == ancestor(m, x, c + q),
    decreases q,
{
    let p = (b - a) as nat;
    if q > 0 {
        assert(q >= p) by (nonlinear_arith)
            requires
                q % p == 0,
                q > 0,
                p >= 1,
        ;
        assert(((q - p) as nat) % p == 0) by (nonlinear_arith)
            requires
                q % p == 0,
                q >= p,
                p >= 1,
        ;
        lemma_ancestor_multiple(m, x, a, b, c, (q - p) as nat);
        lemma_ancestor_shift(m, x, a, b, (c + q - p - a) as nat);
        assert(a + (c + q - p - a) == c + q - p);
        assert(b + (c + q - p - a) == c + q);
    }
}

impl Clone for TreeNode {
    fn clone(&self) -> (r: TreeNode)
        ensures
            r@ == self@,
            r.id@ == self.id@,
    {
        let mut children: Vec<NodeId> = Vec::new();
        let mut i: usize = 0;
        while i < self.children.len()
            invariant
                i <= self.children.len(),
                ids_view(children@) == ids_view(self.children@).take(i as int),
            decreases self.children.len() - i,
        {
            let ghost before = children@;
            children.push(self.children[i].clone());
            proof {
                assert(ids_view(children@) =~= ids_view(before).push(self.children@[i as int]@));
                assert(ids_view(self.children@).take(i + 1) =~= ids_view(self.children@).take(i as int).push(
                    self.children@[i as int]@,
                ));
            }
            i = i + 1;
        }
        proof {
            assert(ids_view(self.children@).take(i as int) =~= ids_view(self.children@));
        }
        let parent_id = match &self.parent_id {
            Some(p) => Some(p.clone()),
            None => None,
        };
        TreeNode {
            id: self.id.clone(),
            parent_id,
            children,
            fi: self.fi.clone(),
            edge_map: self.edge_map.clone(),
        }
    }
}

impl Clone for TreeStructure {
    /// A copy with the same nodes and the same pending edges.
    fn clone(&self) -> (r: TreeStructure)
        ensures
            self.wf() ==> r.wf() && r@ == self@,
            r.pending() == self.pending(),
    {
        let mut nodes: Vec<TreeNode> = Vec::new();
        let mut i: usize = 0;
        while i < self.nodes.len()
            invariant
                i <= self.nodes.len(),
                nodes.len() == i,
                forall|j: int| 0 <= j < i ==> (#[trigger] nodes@[j])@ == self.nodes@[j]@ && nodes@[j].id@
                    == self.nodes@[j].id@,
            decreases self.nodes.len() - i,
        {
            nodes.push(self.nodes[i].clone());
            i = i + 1;
        }
        let mut pending: Vec<(NodeId, NodeId, i64)> = Vec::new();
        let mut k: usize = 0;
        while k < self.pending_edge_map_updates.len()
            invariant
                k <= self.pending_edge_map_updates.len(),
                pending_view(pending@) == pending_view(self.pending_edge_map_updates@).take(k as int),
            decreases self.pending_edge_map_updates.len() - k,
        {
            let e = &self.pending_edge_map_updates[k];
            let ghost before = pending@;
            pending.push((e.0.clone(), e.1.clone(), e.2));
            proof {
                assert(pending_view(pending@) =~= pending_view(before).push(
                    pending_view(self.pending_edge_map_updates@)[k as int],
                ));
                assert(pending_view(self.pending_edge_map_updates@).take(k + 1) =~= pending_view(
                    self.pending_edge_map_updates@,
                ).take(k as int).push(pending_view(self.pending_edge_map_updates@)[k as int]));
            }
            k = k + 1;
        }
        proof {
            assert(pending_view(self.pending_edge_map_updates@).take(k as int) =~= pending_view(
                self.pending_edge_map_updates@,
            ));
            assert forall|x: IdV| has_id(nodes@, x) <==> has_id(self.nodes@, x) by {
                if has_id(nodes@, x) {
                    let j = choose|j: int| 0 <= j < nodes@.len() && (#[trigger] nodes@[j]).id@ == x;
                    assert(self.nodes@[j].id@ == x);
                }
                if has_id(self.nodes@, x) {
                    let j = choose|j: int| 0 <= j < self.nodes@.len() && (#[trigger] self.nodes@[j]).id@ == x;
                    assert(nodes@[j].id@ == x);
                }
            }
            if ids_distinct(self.nodes@) {
                assert forall|a: int, b: int| 0 <= a < b < nodes@.len() implies (#[trigger] nodes@[a]).id@
                    != (#[trigger] nodes@[b]).id@ by {
                    assert(self.nodes@[a].id@ != self.nodes@[b].id@);
                }
                assert forall|x: IdV| #[trigger] has_id(nodes@, x) implies nodes_view(nodes@)[x]
                    == nodes_view(self.nodes@)[x] by {
                    let j = index_of_id(self.nodes@, x);
                    lemma_view_index(self.nodes@, j);
                    lemma_view_index(nodes@, j);
                }
            }
        }
        let r = TreeStructure { nodes, pending_edge_map_updates: pending };
        proof {
            if ids_distinct(self.nodes@) {
                assert(r@ =~= self@);
            }
        }
        r
    }
}

fn ids_same(a: &Vec<NodeId>, b: &Vec<NodeId>) -> (r: bool)
    ensures
        r == (ids_view(a@) == ids_view(b@)),
{
    if a.len() != b.len() {
        proof {
            assert(ids_view(a@).len() != ids_view(b@).len());
        }
        return false;
    }
    let mut i: usize = 0;
    while i < a.len()
        invariant
            i <= a.len(),
            a.len() == b.len(),
            forall|j: int| 0 <= j < i ==> ids_view(a@)[j] == ids_view(b@)[j],
        decreases a.len() - i,
    {
        if !a[i].same(&b[i]) {
            proof {
                assert(ids_view(a@)[i as int] != ids_view(b@)[i as int]);
            }
            return false;
        }
        i = i + 1;
    }
    proof {
        assert(ids_view(a@) =~= ids_view(b@));
    }
    true
}

fn opt_same(a: &Option<NodeId>, b: &Option<NodeId>) -> (r: bool)
    ensures
        r == (opt_id_view(*a) == opt_id_view(*b)),
{
    match (a, b) {
        (Some(x), Some(y)) => x.same(y),
        (None, None) => true,
        _ => false,
    }
}

impl TreeNode {
    /// Whether two nodes have the same parent, children, index and edges.
    pub fn same(&self, other: &TreeNode) -> (r: bool)
        ensures
            r == (self@ == other@),
    {
        opt_same(&self.parent_id, &other.parent_id) && ids_same(&self.children, &other.children)
            && self.fi.same(&other.fi) && self.edge_map.same(&other.edge_map)
    }
}

impl TreeStructure {
    /// Whether two structures hold the same nodes and the same pending edges.
    pub fn same_as(&self, other: &TreeStructure) -> (r: bool)
        requires
            self.wf(),
            other.wf(),
        ensures
            r == (self@ == other@ && self.pending() == other.pending()),
    {
        let ps = &self.pending_edge_map_updates;
        let po = &other.pending_edge_map_updates;
        if ps.len() != po.len() {
            proof {
                assert(self.pending().len() != other.pending().len());
            }
            return false;
        }
        let mut k: usize = 0;
        while k < ps.len()
            invariant
                k <= ps.len(),
                ps.len() == po.len(),
                ps@ == self.pending_edge_map_updates@,
                po@ == other.pending_edge_map_updates@,
                forall|j: int| 0 <= j < k ==> pending_view(ps@)[j] == pending_view(po@)[j],
            decreases ps.len() - k,
        {
            proof {
                assert(pending_view(ps@)[k as int] == (ps@[k as int].0@, ps@[k as int].1@, ps@[k as int].2));
                assert(pending_view(po@)[k as int] == (po@[k as int].0@, po@[k as int].1@, po@[k as int].2));
            }
            if !(ps[k].0.same(&po[k].0) && ps[k].1.same(&po[k].1) && ps[k].2 == po[k].2) {
                proof {
                    assert(self.pending()[k as int] != other.pending()[k as int]);
                }
                return false;
            }
            k = k + 1;
        }
        proof {
            assert(pending_view(ps@) =~= pending_view(po@));
            lemma_view_len(self.nodes@);
            lemma_view_len(other.nodes@);
        }
        if self.nodes.len() != other.nodes.len() {
            return false;
        }
        let mut i: usize = 0;
        while i < self.nodes.len()
            invariant
                self.wf(),
                other.wf(),
                i <= self.nodes.len(),
                forall|j: int| 0 <= j < i ==> other@.contains_key(#[trigger] self.nodes@[j].id@) && other@[self.nodes@[j].id@]
                    == self.nodes@[j]@,
            decreases self.nodes.len() - i,
        {
            proof {
                lemma_view_index(self.nodes@, i as int);
            }
            match other.get_node(&self.nodes[i].id) {
                Some(o) => {
                    if !self.nodes[i].same(o) {
                        return false;
                    }
                },
                None => {
                    return false;
                },
            }
            i = i + 1;
        }
        proof {
            assert(self@.dom().subset_of(other@.dom())) by {
                assert forall|x: IdV| self@.dom().contains(x) implies other@.dom().contains(x) by {
                    let j = index_of_id(self.nodes@, x);
                    assert(self.nodes@[j].id@ == x);
                }
            }
            lemma_view_len(self.nodes@);
            lemma_view_len(other.nodes@);
            vstd::set_lib::lemma_subset_equality(self@.dom(), other@.dom());
            assert forall|x: IdV| #[trigger] self@.contains_key(x) implies other@[x] == self@[x] by {
                let j = index_of_id(self.nodes@, x);
                lemma_view_index(self.nodes@, j);
                assert(self.nodes@[j].id@ == x);
            }
            assert(self@ =~= other@);
        }
        true
    }
}

} // verus!
