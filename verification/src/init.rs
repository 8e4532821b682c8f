//! Building the tree structure from the node containers of the document:
//! each node's parent is the one with the highest edge value; nodes that do
//! not reach the root that way are reattached to their best historical
//! parent that is not itself detached; children are ordered by fractional
//! index, then by id.
use vstd::prelude::*;

use crate::edge_map::{
    EdgeMap, edge_before, edges_below_max, entries_view, is_max_value, is_top_key,
    lemma_edge_before_asymmetric, lemma_top_key_unique, lists_map, map_of_entries, sorted_desc,
};
use crate::error::TreeError;
use crate::fractional::{FractionalIndex, index_decode, terminator};
use crate::model::{IdV, NodeV, reaches};
use crate::node::{
    NodeId, id_lt, id_to_key, key_to_id, lemma_id_lt_asymmetric, lemma_id_lt_total,
    lemma_id_lt_transitive,
};
use crate::order::{
    asymmetric_on, byte_codes, lemma_byte_codes_injective, lemma_insert_sorted, lemma_lex_asymmetric,
    lemma_lex_total, lemma_lex_transitive, lemma_sorted_unique, lex_lt, strictly_sorted, transitive,
};
use crate::tree_structure::{
    TreeNode, TreeStructure, ids_view, lemma_view_index, lemma_view_push,
    lemma_view_update, pending_view,
};

verus! {

/// What the document holds for one node: its id, its edge map and its
/// fractional index.
pub struct NodeContainer {
    pub id: NodeId,
    pub edge_map: EdgeMap,
    pub fi: FractionalIndex,
}

/// A container as a value.
pub struct ContainerV {
    pub id: IdV,
    pub edges: Map<Seq<char>, i64>,
    pub fi: Seq<u8>,
}

impl View for NodeContainer {
    type V = ContainerV;

    open spec fn view(&self) -> ContainerV {
        ContainerV { id: self.id@, edges: self.edge_map@, fi: self.fi@ }
    }
}

impl NodeContainer {
    /// The container of node `id` as the document stores it: the edge map
    /// as (parent, edge value) pairs and the fractional index as a string.
    /// An index string that does not parse gives the default index.
    pub fn new(id: &str, edges: Vec<(String, i64)>, fi: &str) -> (r: NodeContainer)
        ensures
            r@.id == key_to_id(id@),
            r@.edges == map_of_entries(entries_view(edges@)),
            fi.is_ascii() && index_decode(fi@) is Some ==> Some(r@.fi) == index_decode(fi@),
            !(fi.is_ascii() && index_decode(fi@) is Some) ==> r@.fi == seq![terminator()],
    {
        NodeContainer {
            id: NodeId::from_str(id),
            edge_map: EdgeMap::from_entries(edges),
            fi: FractionalIndex::from_string_or_default(fi),
        }
    }
}

/// The values of a list of containers.
pub open spec fn containers_view(v: Seq<NodeContainer>) -> Seq<ContainerV> {
    v.map_values(|c: NodeContainer| c@)
}

/// No two containers are for the same node.
pub open spec fn container_ids_distinct(cs: Seq<ContainerV>) -> bool {
    forall|i: int, j: int| 0 <= i < j < cs.len() ==> (#[trigger] cs[i]).id != (#[trigger] cs[j]).id
}

/// Every edge value of every container can be raised by one.
pub open spec fn containers_below_max(cs: Seq<ContainerV>) -> bool {
    forall|i: int| 0 <= i < cs.len() ==> edges_below_max(#[trigger] cs[i].edges)
}

/// The root node before its children are known.
pub open spec fn root_node() -> NodeV {
    NodeV { parent: None, children: Seq::empty(), fi: seq![terminator()], edges: Map::empty() }
}

/// Every node that building has to reattach (a node that does not reach
/// the root under its highest edge) can have an edge raised by one; the
/// other nodes get no new edge.
pub open spec fn detached_below_max(cs: Seq<ContainerV>) -> bool {
    !some_without_parent(cs) ==> forall|x: IdV| #[trigger] detached(parented_nodes(cs)).contains(x)
        ==> edges_below_max(parented_nodes(cs)[x].edges)
}

/// Some container is for node `x`.
pub open spec fn has_container(cs: Seq<ContainerV>, x: IdV) -> bool {
    exists|i: int| 0 <= i < cs.len() && (#[trigger] cs[i]).id == x
}

/// The position of the container for node `x`.
pub open spec fn container_index(cs: Seq<ContainerV>, x: IdV) -> int {
    choose|i: int| 0 <= i < cs.len() && (#[trigger] cs[i]).id == x
}

/// The container for node `x`.
pub open spec fn container_of(cs: Seq<ContainerV>, x: IdV) -> ContainerV {
    cs[container_index(cs, x)]
}

/// The key of `em` that ranks first.
pub open spec fn top_key(em: Map<Seq<char>, i64>) -> Seq<char> {
    choose|k: Seq<char>| is_top_key(em, k)
}

/// The root, and one node per container (a container for the root replaces
/// it); the nodes of the first `n` containers are under the parent with the
/// highest edge value, the others have no parent yet.
pub open spec fn parented_upto(cs: Seq<ContainerV>, n: int) -> Map<IdV, NodeV> {
    Map::new(
        |x: IdV| x is None || has_container(cs, x),
        |x: IdV|
            if has_container(cs, x) {
                NodeV {
                    parent: if container_index(cs, x) < n {
                        Some(key_to_id(top_key(container_of(cs, x).edges)))
                    } else {
                        None
                    },
                    children: Seq::empty(),
                    fi: container_of(cs, x).fi,
                    edges: container_of(cs, x).edges,
                }
            } else {
                root_node()
            },
    )
}

/// The nodes before any parent is set.
pub open spec fn initial_nodes(cs: Seq<ContainerV>) -> Map<IdV, NodeV> {
    parented_upto(cs, 0)
}

/// Every container's node under the parent with the highest edge value.
pub open spec fn parented_nodes(cs: Seq<ContainerV>) -> Map<IdV, NodeV> {
    parented_upto(cs, cs.len() as int)
}

/// Some container has an empty edge map.
pub open spec fn some_without_parent(cs: Seq<ContainerV>) -> bool {
    exists|i: int| 0 <= i < cs.len() && (#[trigger] cs[i]).edges.len() == 0
}

/// The first container with an empty edge map.
pub open spec fn first_without_parent(cs: Seq<ContainerV>) -> int {
    choose|i: int|
        0 <= i < cs.len() && (#[trigger] cs[i]).edges.len() == 0 && forall|j: int|
            0 <= j < i ==> (#[trigger] cs[j]).edges.len() != 0
}

/// The nodes that do not reach the root.
pub open spec fn detached(m: Map<IdV, NodeV>) -> Set<IdV> {
    Set::new(|x: IdV| m.contains_key(x) && !reaches(m, x, None))
}

/// The order of ids, as a function.
pub open spec fn id_order() -> spec_fn(IdV, IdV) -> bool {
    |a: IdV, b: IdV| id_lt(a, b)
}

/// The detached nodes in increasing order of id.
pub open spec fn detached_order(m: Map<IdV, NodeV>) -> Seq<IdV> {
    choose|o: Seq<IdV>| strictly_sorted(o, id_order()) && o.to_set() == detached(m)
}

/// `k` may become a parent while reattaching `order[i]`: the node it names
/// is not among the nodes still to reattach.
pub open spec fn free_key(order: Seq<IdV>, i: int, k: Seq<char>) -> bool {
    !order.subrange(i, order.len() as int).contains(key_to_id(k))
}

/// `k` is the free key of `em` that ranks first.
pub open spec fn is_best_free_key(em: Map<Seq<char>, i64>, order: Seq<IdV>, i: int, k: Seq<char>) -> bool {
    &&& em.contains_key(k)
    &&& free_key(order, i, k)
    &&& forall|k2: Seq<char>| #[trigger]
        em.contains_key(k2) && free_key(order, i, k2) && k2 != k ==> edge_before((k, em[k]), (k2, em[k2]))
}

/// The highest edge value of a non-empty edge map.
pub open spec fn max_value(em: Map<Seq<char>, i64>) -> i64 {
    em[top_key(em)]
}

/// Reattaching the nodes `order[i..]` in turn: a node that reaches the root
/// is left as it is; any other gets as parent its best free key, whose edge
/// value becomes one more than the node's highest one, and that edge is
/// recorded as pending. Fails on a node without a free key.
pub open spec fn reattach_spec(m: Map<IdV, NodeV>, order: Seq<IdV>, i: int) -> Result<
    (Map<IdV, NodeV>, Seq<(IdV, IdV, i64)>),
    IdV,
>
    decreases order.len() - i,
{
    if i < 0 || i >= order.len() {
        Ok((m, Seq::empty()))
    } else {
        let x = order[i];
        if reaches(m, x, None) {
            reattach_spec(m, order, i + 1)
        } else if !(exists|k: Seq<char>| is_best_free_key(m[x].edges, order, i, k)) {
            Err(x)
        } else {
            let em = m[x].edges;
            let k = choose|k: Seq<char>| is_best_free_key(em, order, i, k);
            let v = (max_value(em) + 1) as i64;
            let m2 = m.insert(x, NodeV { parent: Some(key_to_id(k)), edges: em.insert(k, v), ..m[x] });
            match reattach_spec(m2, order, i + 1) {
                Ok((m3, p)) => Ok((m3, seq![(x, key_to_id(k), v)] + p)),
                Err(e) => Err(e),
            }
        }
    }
}

/// `r` with the pending edges `p` in front.
pub open spec fn with_pending_prefix(
    p: Seq<(IdV, IdV, i64)>,
    r: Result<(Map<IdV, NodeV>, Seq<(IdV, IdV, i64)>), IdV>,
) -> Result<(Map<IdV, NodeV>, Seq<(IdV, IdV, i64)>), IdV> {
    match r {
        Ok((m, q)) => Ok((m, p + q)),
        Err(e) => Err(e),
    }
}

pub proof fn lemma_id_order_transitive()
    ensures
        transitive(id_order()),
{
    assert forall|x: IdV, y: IdV, z: IdV| #[trigger] id_order()(x, y) && #[trigger] id_order()(y, z) implies id_order()(x, z) by {
        lemma_id_lt_transitive(x, y, z);
    }
}

pub proof fn lemma_id_order_asymmetric(s: Set<IdV>)
    ensures
        asymmetric_on(id_order(), s),
{
    assert forall|x: IdV, y: IdV| s.contains(x) && s.contains(y) && #[trigger] id_order()(x, y) implies !id_order()(y, x) by {
        lemma_id_lt_asymmetric(x, y);
    }
}

/// The top key has the highest value.
proof fn lemma_top_is_max(em: Map<Seq<char>, i64>, k: Seq<char>)
    requires
        is_top_key(em, k),
    ensures
        top_key(em) == k,
        is_max_value(em, em[k]),
        max_value(em) == em[k],
{
    lemma_top_key_unique(em, k, top_key(em));
    assert forall|k2: Seq<char>| #[trigger] em.contains_key(k2) implies em[k2] <= em[k] by {
        if k2 != k {
            assert(edge_before((k, em[k]), (k2, em[k2])));
        }
    }
}

proof fn lemma_best_free_unique(em: Map<Seq<char>, i64>, order: Seq<IdV>, i: int, k1: Seq<char>, k2: Seq<char>)
    requires
        is_best_free_key(em, order, i, k1),
        is_best_free_key(em, order, i, k2),
    ensures
        k1 == k2,
{
    if k1 != k2 {
        assert(em.contains_key(k2));
        assert(em.contains_key(k1));
        assert(edge_before((k1, em[k1]), (k2, em[k2])));
        assert(edge_before((k2, em[k2]), (k1, em[k1])));
        lemma_edge_before_asymmetric((k1, em[k1]), (k2, em[k2]));
    }
}

/// The first free entry of the edges in descending rank holds the best free
/// key; when no entry is free, there is no free key.
proof fn lemma_first_free(
    list: Seq<(Seq<char>, i64)>,
    em: Map<Seq<char>, i64>,
    order: Seq<IdV>,
    i: int,
    t: int,
)
    requires
        lists_map(list, em),
        sorted_desc(list),
        0 <= t <= list.len(),
        forall|u: int| 0 <= u < t ==> !free_key(order, i, #[trigger] list[u].0),
        t < list.len() ==> free_key(order, i, list[t].0),
    ensures
        t < list.len() ==> is_best_free_key(em, order, i, list[t].0),
        t == list.len() ==> !(exists|k: Seq<char>| is_best_free_key(em, order, i, k)),
{
    if t < list.len() {
        let k = list[t].0;
        assert forall|k2: Seq<char>| #[trigger]
            em.contains_key(k2) && free_key(order, i, k2) && k2 != k implies edge_before(
            (k, em[k]),
            (k2, em[k2]),
        ) by {
            let u = choose|u: int| 0 <= u < list.len() && list[u].0 == k2;
            if u < t {
                assert(!free_key(order, i, list[u].0));
            }
            assert(u != t);
            assert(edge_before(list[t], list[u]));
        }
    } else {
        if exists|k: Seq<char>| is_best_free_key(em, order, i, k) {
            let k = choose|k: Seq<char>| is_best_free_key(em, order, i, k);
            let u = choose|u: int| 0 <= u < list.len() && list[u].0 == k;
            assert(!free_key(order, i, list[u].0));
        }
    }
}

/// The order of siblings: by fractional index, then by id.
pub open spec fn child_order(m: Map<IdV, NodeV>) -> spec_fn(IdV, IdV) -> bool {
    |a: IdV, b: IdV|
        lex_lt(byte_codes(m[a].fi), byte_codes(m[b].fi)) || (m[a].fi == m[b].fi && id_lt(a, b))
}

/// The nodes whose parent is `p`.
pub open spec fn children_of(m: Map<IdV, NodeV>, p: IdV) -> Set<IdV> {
    Set::new(|x: IdV| m.contains_key(x) && m[x].parent == Some(p))
}

/// The children of `p` in sibling order.
pub open spec fn sorted_children(m: Map<IdV, NodeV>, p: IdV) -> Seq<IdV> {
    choose|cs: Seq<IdV>| strictly_sorted(cs, child_order(m)) && cs.to_set() == children_of(m, p)
}

/// The nodes with their children filled in, in sibling order.
pub open spec fn with_children(m: Map<IdV, NodeV>) -> Map<IdV, NodeV> {
    Map::new(
        |x: IdV| m.contains_key(x),
        |x: IdV| NodeV { children: sorted_children(m, x), ..m[x] },
    )
}

/// `p` is the parent of some node, but not a node itself.
pub open spec fn missing_parent(m: Map<IdV, NodeV>, p: IdV) -> bool {
    &&& !m.contains_key(p)
    &&& exists|x: IdV| #[trigger] m.contains_key(x) && m[x].parent == Some(p)
}

pub proof fn lemma_child_order_transitive(m: Map<IdV, NodeV>)
    ensures
        transitive(child_order(m)),
{
    assert forall|x: IdV, y: IdV, z: IdV| #[trigger] child_order(m)(x, y) && #[trigger] child_order(m)(y, z) implies child_order(m)(x, z) by {
        let (a, b, c) = (byte_codes(m[x].fi), byte_codes(m[y].fi), byte_codes(m[z].fi));
        if lex_lt(a, b) && lex_lt(b, c) {
            lemma_lex_transitive(a, b, c);
        } else if lex_lt(a, b) {
        } else if lex_lt(b, c) {
        } else {
            lemma_id_lt_transitive(x, y, z);
        }
    }
}

pub proof fn lemma_child_order_asymmetric(m: Map<IdV, NodeV>, s: Set<IdV>)
    ensures
        asymmetric_on(child_order(m), s),
{
    assert forall|x: IdV, y: IdV| s.contains(x) && s.contains(y) && #[trigger] child_order(m)(x, y) implies !child_order(m)(y, x) by {
        let (a, b) = (byte_codes(m[x].fi), byte_codes(m[y].fi));
        if lex_lt(a, b) {
            lemma_lex_asymmetric(a, b);
        } else {
            lemma_id_lt_asymmetric(x, y);
            if lex_lt(b, a) {
                lemma_lex_asymmetric(b, a);
            }
        }
    }
}

pub proof fn lemma_child_order_total(m: Map<IdV, NodeV>, x: IdV, y: IdV)
    requires
        x != y,
    ensures
        child_order(m)(x, y) || child_order(m)(y, x),
{
    let (a, b) = (byte_codes(m[x].fi), byte_codes(m[y].fi));
    lemma_lex_total(a, b);
    if a == b {
        lemma_byte_codes_injective(m[x].fi, m[y].fi);
        lemma_id_lt_total(x, y);
    }
}

/// Each node of `m0` with its children, in any order and each once, and
/// otherwise as in `m0`.
pub open spec fn is_linked(m0: Map<IdV, NodeV>, s: Map<IdV, NodeV>) -> bool {
    &&& s.dom() == m0.dom()
    &&& forall|x: IdV| #[trigger]
        s.contains_key(x) ==> s[x] == NodeV { children: s[x].children, ..m0[x] } && s[x].children.to_set()
            == children_of(m0, x) && s[x].children.no_duplicates()
}

/// The children of `x` among the first `i` nodes of the list `ids`.
pub open spec fn linked_upto(m0: Map<IdV, NodeV>, ids: Seq<IdV>, i: int, x: IdV) -> Set<IdV> {
    Set::new(|y: IdV| exists|j: int| 0 <= j < i && ids[j] == y && m0[y].parent == Some(x))
}

/// What building the structure from a list of containers gives.
pub enum InitOutcome {
    /// The nodes, and the edges that reattaching added.
    Built(Map<IdV, NodeV>, Seq<(IdV, IdV, i64)>),
    /// The first container with an empty edge map.
    NoParentSet(IdV),
    /// A detached node with no parent to go to.
    NoValidParent(IdV),
    /// After reattaching (these nodes), a parent that is not a node.
    ParentMissing(Map<IdV, NodeV>),
}

/// Building the structure: every container's node goes under its parent
/// with the highest edge value; the nodes that then do not reach the root
/// are reattached in increasing order of id; children are put in sibling
/// order.
pub open spec fn spec_init(cs: Seq<ContainerV>) -> InitOutcome {
    if some_without_parent(cs) {
        InitOutcome::NoParentSet(cs[first_without_parent(cs)].id)
    } else {
        let m1 = parented_nodes(cs);
        match reattach_spec(m1, detached_order(m1), 0) {
            Err(x) => InitOutcome::NoValidParent(x),
            Ok((m2, p)) => if exists|q: IdV| missing_parent(m2, q) {
                InitOutcome::ParentMissing(m2)
            } else {
                InitOutcome::Built(with_children(m2), p)
            },
        }
    }
}

/// Reattaching keeps the nodes and their children.
pub proof fn lemma_reattach_shape(m: Map<IdV, NodeV>, order: Seq<IdV>, i: int)
    requires
        forall|t: int| 0 <= t < order.len() ==> m.contains_key(#[trigger] order[t]),
    ensures
        reattach_spec(m, order, i) matches Ok((m2, p)) ==> m2.dom() == m.dom() && forall|x: IdV| #[trigger]
            m2.contains_key(x) ==> m2[x].children == m[x].children,
    decreases order.len() - i,
{
    if 0 <= i < order.len() {
        let x = order[i];
        if reaches(m, x, None) {
            lemma_reattach_shape(m, order, i + 1);
        } else if exists|k: Seq<char>| is_best_free_key(m[x].edges, order, i, k) {
            let em = m[x].edges;
            let k = choose|k: Seq<char>| is_best_free_key(em, order, i, k);
            let v = (max_value(em) + 1) as i64;
            let m2 = m.insert(x, NodeV { parent: Some(key_to_id(k)), edges: em.insert(k, v), ..m[x] });
            assert(m2.dom() =~= m.dom());
            lemma_reattach_shape(m2, order, i + 1);
        }
    }
}

/// The error message for a node with an empty edge map.
pub open spec fn no_parent_message(x: IdV) -> Seq<char> {
    "No parent set for node: "@ + id_to_key(x)
}

/// The error message for a detached node with no parent to go to.
pub open spec fn no_valid_parent_message(x: IdV) -> Seq<char> {
    "No valid parent found for detached node: "@ + id_to_key(x)
}

pub proof fn lemma_container_index(cs: Seq<ContainerV>, i: int)
    requires
        container_ids_distinct(cs),
        0 <= i < cs.len(),
    ensures
        has_container(cs, cs[i].id),
        container_index(cs, cs[i].id) == i,
{
    assert(has_container(cs, cs[i].id));
    let j = container_index(cs, cs[i].id);
    if j < i {
        assert(cs[j].id != cs[i].id);
    } else if j > i {
        assert(cs[i].id != cs[j].id);
    }
}

/// Adding the next container's node.
proof fn lemma_initial_step(cs: Seq<ContainerV>, i: int)
    requires
        container_ids_distinct(cs),
        0 <= i < cs.len(),
    ensures
        initial_nodes(cs.take(i + 1)) == initial_nodes(cs.take(i)).insert(
            cs[i].id,
            NodeV { parent: None, children: Seq::empty(), fi: cs[i].fi, edges: cs[i].edges },
        ),
{
    let a = cs.take(i);
    let b = cs.take(i + 1);
    assert(container_ids_distinct(a));
    assert(container_ids_distinct(b));
    assert(b[i] == cs[i]);
    lemma_container_index(b, i);
    let v = initial_nodes(b);
    let w = initial_nodes(a).insert(
        cs[i].id,
        NodeV { parent: None, children: Seq::empty(), fi: cs[i].fi, edges: cs[i].edges },
    );
    assert forall|x: IdV| v.contains_key(x) <==> w.contains_key(x) by {
        if has_container(b, x) && x != cs[i].id {
            let j = choose|j: int| 0 <= j < b.len() && (#[trigger] b[j]).id == x;
            assert(a[j].id == x);
        }
        if has_container(a, x) {
            let j = choose|j: int| 0 <= j < a.len() && (#[trigger] a[j]).id == x;
            assert(b[j].id == x);
        }
    }
    assert forall|x: IdV| v.contains_key(x) && x != cs[i].id implies v[x] == w[x] by {
        if has_container(b, x) {
            let j = choose|j: int| 0 <= j < b.len() && (#[trigger] b[j]).id == x;
            assert(j != i);
            assert(a[j] == b[j]);
            lemma_container_index(b, j);
            lemma_container_index(a, j);
        } else if has_container(a, x) {
            let j = choose|j: int| 0 <= j < a.len() && (#[trigger] a[j]).id == x;
            assert(b[j].id == x);
        }
    }
    assert(v =~= w);
}

/// Setting the parent of the next container's node.
proof fn lemma_parent_step(cs: Seq<ContainerV>, i: int)
    requires
        container_ids_distinct(cs),
        0 <= i < cs.len(),
    ensures
        parented_upto(cs, i).contains_key(cs[i].id),
        parented_upto(cs, i + 1) == parented_upto(cs, i).insert(
            cs[i].id,
            NodeV {
                parent: Some(key_to_id(top_key(cs[i].edges))),
                ..parented_upto(cs, i)[cs[i].id]
            },
        ),
{
    lemma_container_index(cs, i);
    let v = parented_upto(cs, i + 1);
    let w = parented_upto(cs, i).insert(
        cs[i].id,
        NodeV { parent: Some(key_to_id(top_key(cs[i].edges))), ..parented_upto(cs, i)[cs[i].id] },
    );
    assert forall|x: IdV| v.contains_key(x) && x != cs[i].id implies v[x] == w[x] by {
        if has_container(cs, x) {
            let j = choose|j: int| 0 <= j < cs.len() && (#[trigger] cs[j]).id == x;
            lemma_container_index(cs, j);
        }
    }
    assert(v =~= w);
}

impl TreeStructure {
    /// Adds a node, or replaces the node with the same id.
    fn insert_node(&mut self, node: TreeNode)
        requires
            old(self).wf(),
        ensures
            final(self).wf(),
            final(self)@ == old(self)@.insert(node.id@, node@),
            final(self).pending() == old(self).pending(),
    {
        match self.find(&node.id) {
            Some(i) => {
                proof {
                    lemma_view_update(self.nodes@, i as int, node);
                }
                self.nodes.set(i, node);
            },
            None => {
                proof {
                    lemma_view_push(self.nodes@, node);
                }
                self.nodes.push(node);
            },
        }
    }

    /// Puts in the root and one node per container, none with a parent yet.
    fn create_initial_nodes(&mut self, containers: &Vec<NodeContainer>)
        requires
            old(self).wf(),
            old(self)@ == Map::<IdV, NodeV>::empty(),
            container_ids_distinct(containers_view(containers@)),
        ensures
            final(self).wf(),
            final(self)@ == initial_nodes(containers_view(containers@)),
            final(self).pending() == old(self).pending(),
    {
        let ghost cs = containers_view(containers@);
        let root = TreeNode {
            id: NodeId::Root,
            parent_id: None,
            children: Vec::new(),
            fi: FractionalIndex::default(),
            edge_map: EdgeMap::new(),
        };
        proof {
            assert(root@.children =~= Seq::<IdV>::empty());
            assert(root@ == root_node());
        }
        self.insert_node(root);
        proof {
            assert(cs.take(0) =~= Seq::<ContainerV>::empty());
            assert(!has_container(cs.take(0), None));
            assert(self@ =~= initial_nodes(cs.take(0)));
        }
        let mut i: usize = 0;
        while i < containers.len()
            invariant
                self.wf(),
                cs == containers_view(containers@),
                container_ids_distinct(cs),
                i <= containers.len(),
                self@ == initial_nodes(cs.take(i as int)),
                self.pending() == old(self).pending(),
            decreases containers.len() - i,
        {
            let c = &containers[i];
            let node = TreeNode {
                id: c.id.clone(),
                parent_id: None,
                children: Vec::new(),
                fi: c.fi.clone(),
                edge_map: c.edge_map.clone(),
            };
            proof {
                assert(cs[i as int] == c@);
                lemma_initial_step(cs, i as int);
                assert(node@.children =~= Seq::<IdV>::empty());
            }
            self.insert_node(node);
            i = i + 1;
        }
        proof {
            assert(cs.take(i as int) =~= cs);
        }
    }

    /// Puts every container's node under its parent with the highest edge
    /// value; fails on the first container with an empty edge map.
    fn process_parents(&mut self, containers: &Vec<NodeContainer>) -> (r: Result<(), TreeError>)
        requires
            old(self).wf(),
            container_ids_distinct(containers_view(containers@)),
            old(self)@ == initial_nodes(containers_view(containers@)),
        ensures
            final(self).wf(),
            final(self).pending() == old(self).pending(),
            r is Ok <==> !some_without_parent(containers_view(containers@)),
            r is Ok ==> final(self)@ == parented_nodes(containers_view(containers@)),
            r matches Err(e) ==> e matches TreeError::BadYrsDoc(msg) && msg@ == no_parent_message(
                containers_view(containers@)[first_without_parent(containers_view(containers@))].id,
            ),
    {
        let ghost cs = containers_view(containers@);
        let mut i: usize = 0;
        while i < containers.len()
            invariant
                self.wf(),
                cs == containers_view(containers@),
                container_ids_distinct(cs),
                i <= containers.len(),
                self@ == parented_upto(cs, i as int),
                self.pending() == old(self).pending(),
                forall|j: int| 0 <= j < i ==> (#[trigger] cs[j]).edges.len() != 0,
            decreases containers.len() - i,
        {
            let c = &containers[i];
            proof {
                assert(cs[i as int] == c@);
            }
            match c.edge_map.max_edge() {
                Some((key, _)) => {
                    proof {
                        lemma_parent_step(cs, i as int);
                        assert(is_top_key(c.edge_map@, key@));
                        crate::edge_map::lemma_top_key_unique(
                            c.edge_map@,
                            key@,
                            top_key(c.edge_map@),
                        );
                    }
                    let parent_id = NodeId::from_str(key.as_str());
                    self.set_parent(&c.id, Some(parent_id));
                },
                None => {
                    let mut msg = "No parent set for node: ".to_owned();
                    let id_str = c.id.to_string();
                    msg.append(id_str.as_str());
                    proof {
                        let k = first_without_parent(cs);
                        assert(cs[i as int].edges.len() == 0);
                        assert(0 <= k < cs.len() && cs[k].edges.len() == 0);
                        if k < i {
                            assert(cs[k].edges.len() != 0);
                        } else if k > i {
                            assert(cs[i as int].edges.len() != 0);
                        }
                    }
                    return Err(TreeError::BadYrsDoc(msg));
                },
            }
            i = i + 1;
        }
        Ok(())
    }

    /// The ids of the nodes that do not reach the root, in increasing order.
    fn detached_nodes(&self) -> (r: Vec<NodeId>)
        requires
            self.wf(),
        ensures
            strictly_sorted(ids_view(r@), id_order()),
            ids_view(r@).to_set() == detached(self@),
    {
        let mut r: Vec<NodeId> = Vec::new();
        let root = NodeId::Root;
        let mut i: usize = 0;
        proof {
            lemma_id_order_transitive();
            assert(ids_view(r@).to_set() =~= Set::<IdV>::empty());
        }
        while i < self.nodes.len()
            invariant
                self.wf(),
                root@ is None,
                i <= self.nodes.len(),
                transitive(id_order()),
                strictly_sorted(ids_view(r@), id_order()),
                ids_view(r@).to_set() == Set::new(
                    |x: IdV|
                        exists|j: int|
                            0 <= j < i && (#[trigger] self.nodes@[j]).id@ == x && !reaches(
                                self@,
                                x,
                                None,
                            ),
                ),
            decreases self.nodes.len() - i,
        {
            let id = &self.nodes[i].id;
            if !self.can_reach(id, &root) {
                let ghost rv = ids_view(r@);
                let ghost x = id@;
                proof {
                    assert forall|t: int| 0 <= t < rv.len() implies rv[t] != x by {
                        assert(rv.to_set().contains(rv[t]));
                        let j = choose|j: int|
                            0 <= j < i && (#[trigger] self.nodes@[j]).id@ == rv[t] && !reaches(
                                self@,
                                rv[t],
                                None,
                            );
                        assert(self.nodes@[j].id@ != self.nodes@[i as int].id@);
                    }
                }
                let mut j: usize = 0;
                while j < r.len() && r[j].less_than(id)
                    invariant
                        j <= r.len(),
                        rv == ids_view(r@),
                        x == id@,
                        forall|t: int| 0 <= t < j ==> #[trigger] id_order()(rv[t], x),
                    decreases r.len() - j,
                {
                    j = j + 1;
                }
                proof {
                    if j < r.len() {
                        assert(rv[j as int] != x);
                        lemma_id_lt_total(rv[j as int], x);
                        assert(id_order()(x, rv[j as int]));
                    }
                    lemma_insert_sorted(rv, x, j as int, id_order());
                }
                r.insert(j, id.clone());
                proof {
                    let nv = ids_view(r@);
                    assert(nv =~= rv.insert(j as int, x));
                    let target = Set::new(
                        |y: IdV|
                            exists|jj: int|
                                0 <= jj < i + 1 && (#[trigger] self.nodes@[jj]).id@ == y && !reaches(
                                    self@,
                                    y,
                                    None,
                                ),
                    );
                    assert forall|y: IdV| nv.to_set().contains(y) <==> target.contains(y) by {
                        if nv.contains(y) {
                            let t = choose|t: int| 0 <= t < nv.len() && nv[t] == y;
                            if t != j {
                                let t0 = if t < j { t } else { t - 1 };
                                assert(rv[t0] == y);
                                assert(rv.to_set().contains(y));
                            }
                        }
                        if target.contains(y) {
                            let jj = choose|jj: int|
                                0 <= jj < i + 1 && (#[trigger] self.nodes@[jj]).id@ == y && !reaches(
                                    self@,
                                    y,
                                    None,
                                );
                            if jj < i {
                                assert(rv.to_set().contains(y));
                                let t = choose|t: int| 0 <= t < rv.len() && rv[t] == y;
                                if t < j {
                                    assert(nv[t] == y);
                                } else {
                                    assert(nv[t + 1] == y);
                                }
                            } else {
                                assert(nv[j as int] == y);
                            }
                        }
                    }
                    assert(nv.to_set() =~= target);
                }
            } else {
                proof {
                    let rv = ids_view(r@);
                    let target = Set::new(
                        |y: IdV|
                            exists|jj: int|
                                0 <= jj < i + 1 && (#[trigger] self.nodes@[jj]).id@ == y && !reaches(
                                    self@,
                                    y,
                                    None,
                                ),
                    );
                    assert forall|y: IdV| rv.to_set().contains(y) <==> target.contains(y) by {
                        if target.contains(y) {
                            let jj = choose|jj: int|
                                0 <= jj < i + 1 && (#[trigger] self.nodes@[jj]).id@ == y && !reaches(
                                    self@,
                                    y,
                                    None,
                                );
                            if jj == i {
                                assert(reaches(self@, y, None));
                            }
                        }
                    }
                    assert(rv.to_set() =~= target);
                }
            }
            i = i + 1;
        }
        proof {
            let rv = ids_view(r@);
            assert forall|y: IdV| rv.to_set().contains(y) <==> detached(self@).contains(y) by {
                if detached(self@).contains(y) {
                    let jj = choose|jj: int| 0 <= jj < self.nodes@.len() && (#[trigger] self.nodes@[jj]).id@ == y;
                }
                if rv.to_set().contains(y) {
                    let jj = choose|jj: int|
                        0 <= jj < i && (#[trigger] self.nodes@[jj]).id@ == y && !reaches(self@, y, None);
                    lemma_view_index(self.nodes@, jj);
                }
            }
            assert(rv.to_set() =~= detached(self@));
        }
        r
    }

    /// Whether the node that key `k` names is not among `order[i..]`.
    fn is_free(k: &String, order: &Vec<NodeId>, i: usize) -> (r: bool)
        requires
            i <= order.len(),
        ensures
            r == free_key(ids_view(order@), i as int, k@),
    {
        let kid = NodeId::from_str(k.as_str());
        let ghost ov = ids_view(order@);
        let mut j = i;
        while j < order.len()
            invariant
                i <= j <= order.len(),
                ov == ids_view(order@),
                kid@ == key_to_id(k@),
                forall|u: int| i <= u < j ==> ov[u] != kid@,
            decreases order.len() - j,
        {
            if order[j].same(&kid) {
                proof {
                    let sub = ov.subrange(i as int, ov.len() as int);
                    assert(sub[j - i] == ov[j as int]);
                }
                return false;
            }
            j = j + 1;
        }
        proof {
            let sub = ov.subrange(i as int, ov.len() as int);
            if sub.contains(kid@) {
                let u = choose|u: int| 0 <= u < sub.len() && sub[u] == kid@;
                assert(ov[u + i] == kid@);
            }
        }
        true
    }

    /// Reattaches the detached nodes `order`, in that order (see
    /// `reattach_spec`).
    fn reattach_nodes(&mut self, order: &Vec<NodeId>) -> (r: Result<(), TreeError>)
        requires
            old(self).wf(),
            strictly_sorted(ids_view(order@), id_order()),
            forall|t: int| 0 <= t < order.len() ==> old(self)@.contains_key(#[trigger] order@[t]@),
            forall|t: int| 0 <= t < order.len() ==> edges_below_max(old(self)@[#[trigger] order@[t]@].edges),
        ensures
            final(self).wf(),
            reattach_spec(old(self)@, ids_view(order@), 0) matches Ok((m, p)) ==> r is Ok
                && final(self)@ == m && final(self).pending() == old(self).pending() + p,
            reattach_spec(old(self)@, ids_view(order@), 0) matches Err(x) ==> r matches Err(e)
                && e matches TreeError::BadYrsDoc(msg) && msg@ == no_valid_parent_message(x),
    {
        let ghost m0 = self@;
        let ghost p0 = self.pending();
        let ghost ov = ids_view(order@);
        let ghost mut np: Seq<(IdV, IdV, i64)> = Seq::empty();
        let root = NodeId::Root;
        let mut i: usize = 0;
        proof {
            assert(np =~= Seq::<(IdV, IdV, i64)>::empty());
            assert(p0 + np =~= p0);
            assert(ov.take(0) =~= Seq::<IdV>::empty());
            match reattach_spec(m0, ov, 0) {
                Ok((m, q)) => {
                    assert(np + q =~= q);
                },
                Err(_) => {},
            }
        }
        while i < order.len()
            invariant
                self.wf(),
                root@ is None,
                ov == ids_view(order@),
                strictly_sorted(ov, id_order()),
                i <= order.len(),
                self@.dom() == m0.dom(),
                forall|t: int| 0 <= t < order.len() ==> m0.contains_key(#[trigger] order@[t]@),
                forall|t: int| 0 <= t < order.len() ==> edges_below_max(m0[#[trigger] order@[t]@].edges),
                forall|x: IdV| #[trigger]
                    self@.contains_key(x) && !ov.take(i as int).contains(x) ==> self@[x].edges
                        == m0[x].edges,
                reattach_spec(m0, ov, 0) == with_pending_prefix(np, reattach_spec(self@, ov, i as int)),
                self.pending() == p0 + np,
                m0 == old(self)@,
                p0 == old(self).pending(),
            decreases order.len() - i,
        {
            let x = &order[i];
            let ghost mi = self@;
            proof {
                assert(ov[i as int] == x@);
                assert(m0.contains_key(x@));
            }
            if self.can_reach(x, &root) {
                proof {
                    assert(reattach_spec(mi, ov, i as int) == reattach_spec(mi, ov, i + 1));
                    assert forall|y: IdV| #[trigger]
                        self@.contains_key(y) && !ov.take(i + 1).contains(y) implies self@[y].edges
                            == m0[y].edges by {
                        if ov.take(i as int).contains(y) {
                            let u = choose|u: int| 0 <= u < i && ov.take(i as int)[u] == y;
                            assert(ov.take(i + 1)[u] == y);
                        }
                    }
                }
            } else {
                let idx = self.find(x).unwrap();
                proof {
                    lemma_view_index(self.nodes@, idx as int);
                    assert(!ov.take(i as int).contains(x@)) by {
                        if ov.take(i as int).contains(x@) {
                            let u = choose|u: int| 0 <= u < i && ov.take(i as int)[u] == x@;
                            assert(id_order()(ov[u], ov[i as int]));
                            lemma_id_lt_asymmetric(ov[u], ov[i as int]);
                        }
                    }
                }
                let ghost em = self.nodes@[idx as int].edge_map@;
                let edges = self.nodes[idx].edge_map.edges_desc();
                let ghost list = entries_view(edges@);
                let mut t: usize = 0;
                while t < edges.len() && !Self::is_free(&edges[t].0, order, i)
                    invariant
                        t <= edges.len(),
                        i < order.len(),
                        list == entries_view(edges@),
                        ov == ids_view(order@),
                        forall|u: int| 0 <= u < t ==> !free_key(ov, i as int, #[trigger] list[u].0),
                    decreases edges.len() - t,
                {
                    proof {
                        assert(list[t as int].0 == edges@[t as int].0@);
                    }
                    t = t + 1;
                }
                proof {
                    if t < edges.len() {
                        assert(list[t as int].0 == edges@[t as int].0@);
                    }
                    lemma_first_free(list, em, ov, i as int, t as int);
                }
                if t == edges.len() {
                    proof {
                        assert(reattach_spec(mi, ov, i as int) == Err::<
                            (Map<IdV, NodeV>, Seq<(IdV, IdV, i64)>),
                            IdV,
                        >(x@));
                        assert(reattach_spec(m0, ov, 0) == Err::<
                            (Map<IdV, NodeV>, Seq<(IdV, IdV, i64)>),
                            IdV,
                        >(x@));
                        assert(m0 == old(self)@);
                        assert(reattach_spec(old(self)@, ids_view(order@), 0) is Err);
                    }
                    let mut msg = "No valid parent found for detached node: ".to_owned();
                    let id_str = x.to_string();
                    msg.append(id_str.as_str());
                    return Err(TreeError::BadYrsDoc(msg));
                }
                let k = edges[t].0.clone();
                let ghost kv = k@;
                proof {
                    assert(kv == list[t as int].0);
                    let best = choose|kk: Seq<char>| is_best_free_key(em, ov, i as int, kk);
                    lemma_best_free_unique(em, ov, i as int, kv, best);
                    assert(em.contains_key(kv));
                    assert(edges_below_max(m0[order@[i as int]@].edges));
                    assert(edges_below_max(m0[x@].edges));
                }
                let parent = NodeId::from_str(k.as_str());
                let ghost old_nodes = self.nodes@;
                self.nodes[idx].parent_id = Some(parent);
                let (edge_id, edge_val) = self.nodes[idx].edge_map.add_edge(k.as_str());
                proof {
                    assert(em.len() > 0) by {
                        assert(em.dom().contains(kv));
                        vstd::set_lib::lemma_set_empty_equivalency_len(em.dom());
                    }
                    let top = top_key(em);
                    assert(exists|kk: Seq<char>| is_top_key(em, kk)) by {
                        crate::edge_map::lemma_exists_top_key(em);
                    }
                    lemma_top_is_max(em, top);
                    assert(em == m0[x@].edges);
                    assert(em.contains_key(top));
                    assert(em[top] < i64::MAX);
                    assert(is_max_value(em, (edge_val - 1) as i64));
                    let w = choose|kk: Seq<char>| #[trigger] em.contains_key(kk) && em[kk] == (edge_val - 1) as i64;
                    assert(em[top] <= (edge_val - 1) as i64);
                    assert(em[w] <= em[top]);
                    assert(edge_val == (max_value(em) + 1) as i64);
                    assert(self.nodes@ =~= old_nodes.update(idx as int, self.nodes@[idx as int]));
                    lemma_view_update(old_nodes, idx as int, self.nodes@[idx as int]);
                    assert(self.nodes@[idx as int].children == old_nodes[idx as int].children);
                    assert(self.nodes@[idx as int].fi == old_nodes[idx as int].fi);
                    assert(self.nodes@[idx as int]@ == NodeV {
                        parent: Some(key_to_id(kv)),
                        edges: em.insert(kv, edge_val),
                        ..mi[x@]
                    });
                }
                let ghost pend_entry = (x@, key_to_id(kv), edge_val);
                let entry_node = NodeId::from_str(edge_id.as_str());
                self.pending_edge_map_updates.push((x.clone(), entry_node, edge_val));
                proof {
                    let mi2 = mi.insert(
                        x@,
                        NodeV {
                            parent: Some(key_to_id(kv)),
                            edges: em.insert(kv, edge_val),
                            ..mi[x@]
                        },
                    );
                    assert(self@ == mi2);
                    assert(pending_view(self.pending_edge_map_updates@) =~= p0 + np + seq![pend_entry]);
                    match reattach_spec(mi2, ov, i + 1) {
                        Ok((m3, q)) => {
                            assert(np + (seq![pend_entry] + q) =~= (np + seq![pend_entry]) + q);
                        },
                        Err(_) => {},
                    }
                    np = np + seq![pend_entry];
                    assert(p0 + np =~= p0 + (np.drop_last()) + seq![pend_entry]);
                    assert forall|y: IdV| #[trigger]
                        self@.contains_key(y) && !ov.take(i + 1).contains(y) implies self@[y].edges
                            == m0[y].edges by {
                        assert(ov.take(i + 1)[i as int] == x@);
                        if ov.take(i as int).contains(y) {
                            let u = choose|u: int| 0 <= u < i && ov.take(i as int)[u] == y;
                            assert(ov.take(i + 1)[u] == y);
                        }
                    }
                    assert(self@.dom() =~= m0.dom());
                }
            }
            i = i + 1;
        }
        proof {
            assert(reattach_spec(self@, ov, i as int) == Ok::<(Map<IdV, NodeV>, Seq<(IdV, IdV, i64)>), IdV>((self@, Seq::empty())));
            assert(np + Seq::<(IdV, IdV, i64)>::empty() =~= np);
        }
        Ok(())
    }

    /// Whether node `a` comes before node `b` among siblings: by fractional
    /// index, then by id. Both are nodes.
    fn child_before(&self, a: &NodeId, b: &NodeId, Ghost(m): Ghost<Map<IdV, NodeV>>) -> (r: bool)
        requires
            self.wf(),
            self@.contains_key(a@),
            self@.contains_key(b@),
            self@[a@].fi == m[a@].fi,
            self@[b@].fi == m[b@].fi,
        ensures
            r == child_order(m)(a@, b@),
    {
        let na = self.get_node(a).unwrap();
        let nb = self.get_node(b).unwrap();
        if na.fi.less_than(&nb.fi) {
            true
        } else if na.fi.same(&nb.fi) {
            a.less_than(b)
        } else {
            false
        }
    }

    /// The given nodes in sibling order.
    fn sorted_siblings(&self, children: &Vec<NodeId>, Ghost(m): Ghost<Map<IdV, NodeV>>) -> (r: Vec<
        NodeId,
    >)
        requires
            self.wf(),
            self@.dom() == m.dom(),
            forall|x: IdV| #[trigger] self@.contains_key(x) ==> self@[x].fi == m[x].fi,
            forall|t: int| 0 <= t < children.len() ==> self@.contains_key(#[trigger] children@[t]@),
            ids_view(children@).no_duplicates(),
        ensures
            strictly_sorted(ids_view(r@), child_order(m)),
            ids_view(r@).to_set() == ids_view(children@).to_set(),
    {
        let ghost cv = ids_view(children@);
        let mut r: Vec<NodeId> = Vec::new();
        let mut i: usize = 0;
        proof {
            lemma_child_order_transitive(m);
            assert(ids_view(r@).to_set() =~= cv.take(0).to_set());
        }
        while i < children.len()
            invariant
                self.wf(),
                self@.dom() == m.dom(),
                forall|x: IdV| #[trigger] self@.contains_key(x) ==> self@[x].fi == m[x].fi,
                forall|t: int| 0 <= t < children.len() ==> self@.contains_key(#[trigger] children@[t]@),
                cv == ids_view(children@),
                cv.no_duplicates(),
                i <= children.len(),
                transitive(child_order(m)),
                strictly_sorted(ids_view(r@), child_order(m)),
                ids_view(r@).to_set() == cv.take(i as int).to_set(),
                forall|t: int| 0 <= t < r.len() ==> self@.contains_key(#[trigger] r@[t]@),
            decreases children.len() - i,
        {
            let c = &children[i];
            let ghost rv = ids_view(r@);
            let ghost x = c@;
            proof {
                assert(cv[i as int] == x);
                assert forall|t: int| 0 <= t < rv.len() implies rv[t] != x by {
                    assert(rv.to_set().contains(rv[t]));
                    assert(cv.take(i as int).contains(rv[t]));
                    let u = choose|u: int| 0 <= u < i && cv.take(i as int)[u] == rv[t];
                    assert(cv[u] == rv[t]);
                }
            }
            let mut j: usize = 0;
            while j < r.len() && self.child_before(&r[j], c, Ghost(m))
                invariant
                    self.wf(),
                    forall|y: IdV| #[trigger] self@.contains_key(y) ==> self@[y].fi == m[y].fi,
                    forall|t: int| 0 <= t < r.len() ==> self@.contains_key(#[trigger] r@[t]@),
                    self@.contains_key(x),
                    j <= r.len(),
                    rv == ids_view(r@),
                    x == c@,
                    forall|t: int| 0 <= t < j ==> #[trigger] child_order(m)(rv[t], x),
                decreases r.len() - j,
            {
                j = j + 1;
            }
            proof {
                if j < r.len() {
                    assert(rv[j as int] != x);
                    lemma_child_order_total(m, rv[j as int], x);
                }
                lemma_insert_sorted(rv, x, j as int, child_order(m));
            }
            let ghost old_r = r@;
            r.insert(j, c.clone());
            proof {
                let nv = ids_view(r@);
                assert(nv =~= rv.insert(j as int, x));
                assert(cv.take(i + 1) =~= cv.take(i as int).push(x));
                assert forall|y: IdV| nv.to_set().contains(y) <==> cv.take(i + 1).to_set().contains(y) by {
                    if nv.contains(y) {
                        let t = choose|t: int| 0 <= t < nv.len() && nv[t] == y;
                        if t < j {
                            assert(rv[t] == y);
                            assert(rv.to_set().contains(y));
                        } else if t > j {
                            assert(rv[t - 1] == y);
                            assert(rv.to_set().contains(y));
                        }
                        if y != x {
                            assert(cv.take(i as int).contains(y));
                            let u = choose|u: int| 0 <= u < i && cv.take(i as int)[u] == y;
                            assert(cv.take(i + 1)[u] == y);
                        } else {
                            assert(cv.take(i + 1)[i as int] == y);
                        }
                    }
                    if cv.take(i + 1).contains(y) {
                        let ci = cv.take(i + 1);
                        let u = choose|u: int| 0 <= u < ci.len() && ci[u] == y;
                        if u < i {
                            assert(cv.take(i as int)[u] == y);
                            assert(rv.to_set().contains(y));
                            let t = choose|t: int| 0 <= t < rv.len() && rv[t] == y;
                            if t < j {
                                assert(nv[t] == y);
                            } else {
                                assert(nv[t + 1] == y);
                            }
                        } else {
                            assert(nv[j as int] == y);
                        }
                    }
                }
                assert(nv.to_set() =~= cv.take(i + 1).to_set());
                assert forall|t: int| 0 <= t < r.len() implies self@.contains_key(#[trigger] r@[t]@) by {
                    if t < j {
                        assert(r@[t] == old_r[t]);
                    } else if t > j {
                        assert(r@[t] == old_r[t - 1]);
                    }
                }
            }
            i = i + 1;
        }
        proof {
            assert(cv.take(i as int) =~= cv);
        }
        r
    }

    /// Puts each node into the children of its parent; fails on a parent
    /// that is not a node.
    fn link_children(&mut self) -> (r: Result<(), TreeError>)
        requires
            old(self).wf(),
            forall|x: IdV| #[trigger] old(self)@.contains_key(x) ==> old(self)@[x].children == Seq::<IdV>::empty(),
        ensures
            final(self).wf(),
            final(self).pending() == old(self).pending(),
            r is Ok <==> !(exists|p: IdV| missing_parent(old(self)@, p)),
            r matches Err(e) ==> e matches TreeError::MissingParent(p) && missing_parent(old(self)@, p@),
            r is Ok ==> is_linked(old(self)@, final(self)@),
    {
        let ghost m0 = self@;
        let ghost ids = self.nodes@.map_values(|nd: TreeNode| nd.id@);
        let n = self.nodes.len();
        let mut i: usize = 0;
        proof {
            assert forall|x: IdV| #[trigger] self@.contains_key(x) implies self@[x].children.to_set()
                == linked_upto(m0, ids, 0, x) by {
                assert(self@[x].children.to_set() =~= linked_upto(m0, ids, 0, x));
            }
        }
        while i < n
            invariant
                self.wf(),
                n == self.nodes@.len(),
                ids.len() == n,
                i <= n,
                self.pending() == old(self).pending(),
                m0 == old(self)@,
                forall|j: int| 0 <= j < n ==> (#[trigger] self.nodes@[j]).id@ == ids[j],
                self@.dom() == m0.dom(),
                forall|x: IdV| #[trigger]
                    self@.contains_key(x) ==> self@[x] == (NodeV { children: self@[x].children, ..m0[x] }),
                forall|x: IdV| #[trigger]
                    self@.contains_key(x) ==> self@[x].children.to_set() == linked_upto(m0, ids, i as int, x),
                forall|x: IdV| #[trigger] self@.contains_key(x) ==> self@[x].children.no_duplicates(),
                forall|j: int|
                    0 <= j < i && m0.contains_key(ids[j]) && (#[trigger] m0[ids[j]]).parent is Some ==> m0.contains_key(
                        m0[ids[j]].parent->0,
                    ),
            decreases n - i,
        {
            proof {
                lemma_view_index(self.nodes@, i as int);
            }
            let parent = match &self.nodes[i].parent_id {
                Some(p) => Some(p.clone()),
                None => None,
            };
            let ghost y = ids[i as int];
            proof {
                assert(self.nodes@[i as int].id@ == y);
                assert(m0.contains_key(y));
                assert(crate::tree_structure::opt_id_view(parent) == m0[y].parent);
            }
            match parent {
                None => {
                    proof {
                        assert forall|x: IdV| #[trigger] self@.contains_key(x) implies self@[x].children.to_set()
                            == linked_upto(m0, ids, i + 1, x) by {
                            assert(linked_upto(m0, ids, i + 1, x) =~= linked_upto(m0, ids, i as int, x));
                        }
                    }
                },
                Some(p) => {
                    match self.find(&p) {
                        None => {
                            proof {
                                assert(m0.contains_key(y) && m0[y].parent == Some(p@));
                                assert(!m0.contains_key(p@));
                                assert(missing_parent(m0, p@));
                            }
                            return Err(TreeError::MissingParent(p));
                        },
                        Some(pi) => {
                            let c = self.nodes[i].id.clone();
                            let ghost old_nodes = self.nodes@;
                            let ghost mi = self@;
                            proof {
                                lemma_view_index(self.nodes@, pi as int);
                                assert(!mi[p@].children.contains(y)) by {
                                    if mi[p@].children.contains(y) {
                                        assert(mi[p@].children.to_set().contains(y));
                                        let j = choose|j: int| 0 <= j < i && ids[j] == y && m0[y].parent == Some(p@);
                                        assert(self.nodes@[j].id@ == ids[j]);
                                        assert(self.nodes@[j].id@ != self.nodes@[i as int].id@);
                                    }
                                }
                            }
                            self.nodes[pi].children.push(c);
                            proof {
                                assert(self.nodes@ =~= old_nodes.update(pi as int, self.nodes@[pi as int]));
                                lemma_view_update(old_nodes, pi as int, self.nodes@[pi as int]);
                                assert(ids_view(self.nodes@[pi as int].children@) =~= mi[p@].children.push(y));
                                assert forall|x: IdV| #[trigger] self@.contains_key(x) implies self@[x].children.to_set()
                                    == linked_upto(m0, ids, i + 1, x) by {
                                    if x == p@ {
                                        let cs = self@[x].children;
                                        assert(cs =~= mi[x].children.push(y));
                                        assert forall|z: IdV| cs.to_set().contains(z) <==> linked_upto(m0, ids, i + 1, x).contains(z) by {
                                            if cs.contains(z) {
                                                let t = choose|t: int| 0 <= t < cs.len() && cs[t] == z;
                                                if t < cs.len() - 1 {
                                                    assert(mi[x].children[t] == z);
                                                    assert(mi[x].children.to_set().contains(z));
                                                    assert(linked_upto(m0, ids, i as int, x).contains(z));
                                                    let j = choose|j: int| 0 <= j < i && ids[j] == z && m0[z].parent == Some(x);
                                                    assert(linked_upto(m0, ids, i + 1, x).contains(z));
                                                } else {
                                                    assert(ids[i as int] == z);
                                                    assert(linked_upto(m0, ids, i + 1, x).contains(z));
                                                }
                                            }
                                            if linked_upto(m0, ids, i + 1, x).contains(z) {
                                                let j = choose|j: int| 0 <= j < i + 1 && ids[j] == z && m0[z].parent == Some(x);
                                                if j < i {
                                                    assert(linked_upto(m0, ids, i as int, x).contains(z));
                                                    assert(mi[x].children.to_set().contains(z));
                                                    let t = choose|t: int| 0 <= t < mi[x].children.len() && mi[x].children[t] == z;
                                                    assert(cs[t] == z);
                                                } else {
                                                    assert(cs[cs.len() - 1] == z);
                                                }
                                            }
                                        }
                                        assert(cs.to_set() =~= linked_upto(m0, ids, i + 1, x));
                                    } else {
                                        assert(linked_upto(m0, ids, i + 1, x) =~= linked_upto(m0, ids, i as int, x));
                                    }
                                }
                                assert forall|x: IdV| #[trigger] self@.contains_key(x) implies self@[x].children.no_duplicates() by {
                                    if x == p@ {
                                        assert(self@[x].children =~= mi[x].children.push(y));
                                        let cs = self@[x].children;
                                        assert forall|a: int, b: int| 0 <= a < cs.len() && 0 <= b < cs.len() && a != b implies cs[a] != cs[b] by {
                                            if a == cs.len() - 1 {
                                                assert(mi[x].children.contains(cs[b]));
                                            } else if b == cs.len() - 1 {
                                                assert(mi[x].children.contains(cs[a]));
                                            } else {
                                                assert(mi[x].children.no_duplicates());
                                            }
                                        }
                                    }
                                }
                            }
                        },
                    }
                },
            }
            i = i + 1;
        }
        proof {
            assert forall|x: IdV| #[trigger] self@.contains_key(x) implies self@[x].children.to_set()
                == children_of(m0, x) by {
                assert forall|z: IdV| linked_upto(m0, ids, n as int, x).contains(z) <==> children_of(m0, x).contains(z) by {
                    if children_of(m0, z).contains(z) || children_of(m0, x).contains(z) {
                        if children_of(m0, x).contains(z) {
                            let j = choose|j: int| 0 <= j < self.nodes@.len() && (#[trigger] self.nodes@[j]).id@ == z;
                            assert(ids[j] == z);
                        }
                    }
                }
                assert(linked_upto(m0, ids, n as int, x) =~= children_of(m0, x));
            }
            assert forall|p: IdV| !missing_parent(m0, p) by {
                if missing_parent(m0, p) {
                    let x = choose|x: IdV| #[trigger] m0.contains_key(x) && m0[x].parent == Some(p);
                    let j = choose|j: int| 0 <= j < self.nodes@.len() && (#[trigger] self.nodes@[j]).id@ == x;
                    assert(ids[j] == x);
                    assert(m0[ids[j]].parent is Some);
                }
            }
        }
        Ok(())
    }

    /// Puts the children of every node in sibling order.
    fn sort_all_children(&mut self, Ghost(m0): Ghost<Map<IdV, NodeV>>)
        requires
            old(self).wf(),
            is_linked(m0, old(self)@),
        ensures
            final(self).wf(),
            final(self).pending() == old(self).pending(),
            final(self)@ == with_children(m0),
    {
        let ghost ids = self.nodes@.map_values(|nd: TreeNode| nd.id@);
        let n = self.nodes.len();
        let mut i: usize = 0;
        proof {
            assert forall|j: int| 0 <= j < n implies self@[#[trigger] ids[j]].children.to_set() == children_of(m0, ids[j])
                && self@[ids[j]].children.no_duplicates() by {
                lemma_view_index(self.nodes@, j);
                assert(ids[j] == self.nodes@[j].id@);
            }
        }
        while i < n
            invariant
                self.wf(),
                n == self.nodes@.len(),
                ids.len() == n,
                i <= n,
                self.pending() == old(self).pending(),
                forall|j: int| 0 <= j < n ==> (#[trigger] self.nodes@[j]).id@ == ids[j],
                self@.dom() == m0.dom(),
                forall|x: IdV| #[trigger]
                    self@.contains_key(x) ==> self@[x] == (NodeV { children: self@[x].children, ..m0[x] }),
                forall|j: int| 0 <= j < i ==> self@[#[trigger] ids[j]].children == sorted_children(m0, ids[j]),
                forall|j: int|
                    i <= j < n ==> self@[#[trigger] ids[j]].children.to_set() == children_of(m0, ids[j])
                        && self@[ids[j]].children.no_duplicates(),
            decreases n - i,
        {
            proof {
                lemma_view_index(self.nodes@, i as int);
            }
            let ghost x = ids[i as int];
            let ghost mi = self@;
            proof {
                assert(self.nodes@[i as int].id@ == x);
                assert forall|t: int| 0 <= t < self.nodes@[i as int].children@.len() implies self@.contains_key(
                    #[trigger] self.nodes@[i as int].children@[t]@,
                ) by {
                    let cs = mi[x].children;
                    assert(cs[t] == self.nodes@[i as int].children@[t]@);
                    assert(cs.to_set().contains(cs[t]));
                }
                assert forall|y: IdV| #[trigger] self@.contains_key(y) implies self@[y].fi == m0[y].fi by {
                    assert(self@[y] == (NodeV { children: self@[y].children, ..m0[y] }));
                }
            }
            let sorted = self.sorted_siblings(&self.nodes[i].children, Ghost(m0));
            proof {
                let sv = ids_view(sorted@);
                lemma_child_order_asymmetric(m0, sv.to_set());
                let c = sorted_children(m0, x);
                assert(strictly_sorted(c, child_order(m0)) && c.to_set() == children_of(m0, x));
                lemma_sorted_unique(sv, c, child_order(m0));
            }
            let ghost old_nodes = self.nodes@;
            self.nodes[i].children = sorted;
            proof {
                assert(self.nodes@ =~= old_nodes.update(i as int, self.nodes@[i as int]));
                lemma_view_update(old_nodes, i as int, self.nodes@[i as int]);
                assert forall|j: int| 0 <= j < i + 1 implies self@[#[trigger] ids[j]].children == sorted_children(m0, ids[j]) by {
                    if j < i {
                        assert(ids[j] != x) by {
                            assert(old_nodes[j].id@ != old_nodes[i as int].id@);
                        }
                    }
                }
                assert forall|j: int| i + 1 <= j < n implies self@[#[trigger] ids[j]].children.to_set() == children_of(m0, ids[j])
                    && self@[ids[j]].children.no_duplicates() by {
                    assert(ids[j] != x) by {
                        assert(old_nodes[i as int].id@ != old_nodes[j].id@);
                    }
                }
            }
            i = i + 1;
        }
        proof {
            let w = with_children(m0);
            assert forall|x: IdV| #[trigger] self@.contains_key(x) implies self@[x] == w[x] by {
                let j = choose|j: int| 0 <= j < self.nodes@.len() && (#[trigger] self.nodes@[j]).id@ == x;
                assert(ids[j] == x);
            }
            assert(self@ =~= w);
        }
    }

    /// Fills in the children of every node, in sibling order; fails on a
    /// parent that is not a node.
    fn update_children_order(&mut self) -> (r: Result<(), TreeError>)
        requires
            old(self).wf(),
            forall|x: IdV| #[trigger] old(self)@.contains_key(x) ==> old(self)@[x].children == Seq::<IdV>::empty(),
        ensures
            final(self).wf(),
            final(self).pending() == old(self).pending(),
            r is Ok <==> !(exists|p: IdV| missing_parent(old(self)@, p)),
            r matches Err(e) ==> e matches TreeError::MissingParent(p) && missing_parent(old(self)@, p@),
            r is Ok ==> final(self)@ == with_children(old(self)@),
    {
        let ghost m0 = self@;
        match self.link_children() {
            Err(e) => Err(e),
            Ok(()) => {
                self.sort_all_children(Ghost(m0));
                Ok(())
            },
        }
    }

    /// Builds the structure afresh from the containers (see `spec_init`).
    fn build_from(&mut self, containers: &Vec<NodeContainer>) -> (r: Result<(), TreeError>)
        requires
            old(self).wf(),
            container_ids_distinct(containers_view(containers@)),
            detached_below_max(containers_view(containers@)),
        ensures
            final(self).wf(),
            spec_init(containers_view(containers@)) matches InitOutcome::Built(m, p) ==> r is Ok
                && final(self)@ == m && final(self).pending() == old(self).pending() + p,
            spec_init(containers_view(containers@)) matches InitOutcome::NoParentSet(x) ==> r matches Err(
                e,
            ) && e matches TreeError::BadYrsDoc(msg) && msg@ == no_parent_message(x),
            spec_init(containers_view(containers@)) matches InitOutcome::NoValidParent(x) ==> r matches Err(
                e,
            ) && e matches TreeError::BadYrsDoc(msg) && msg@ == no_valid_parent_message(x),
            spec_init(containers_view(containers@)) matches InitOutcome::ParentMissing(m) ==> r matches Err(
                e,
            ) && e matches TreeError::MissingParent(p) && missing_parent(m, p@),
    {
        let ghost cs = containers_view(containers@);
        self.nodes = Vec::new();
        proof {
            assert(self@ =~= Map::<IdV, NodeV>::empty());
        }
        self.create_initial_nodes(containers);
        match self.process_parents(containers) {
            Err(e) => {
                return Err(e);
            },
            Ok(()) => {},
        }
        let ghost m1 = self@;
        let order = self.detached_nodes();
        proof {
            let ov = ids_view(order@);
            lemma_id_order_asymmetric(ov.to_set());
            let d = detached_order(m1);
            assert(strictly_sorted(ov, id_order()) && ov.to_set() == detached(m1));
            lemma_sorted_unique(ov, d, id_order());
            assert forall|t: int| 0 <= t < order.len() implies self@.contains_key(#[trigger] order@[t]@) by {
                assert(ov[t] == order@[t]@);
                assert(ov.to_set().contains(ov[t]));
            }
            assert forall|t: int| 0 <= t < order.len() implies edges_below_max(self@[#[trigger] order@[t]@].edges) by {
                assert(ov[t] == order@[t]@);
                assert(ov.to_set().contains(ov[t]));
                assert(detached(m1).contains(order@[t]@));
            }
            assert forall|t: int| 0 <= t < ov.len() implies m1.contains_key(#[trigger] ov[t]) by {
                assert(ov[t] == order@[t]@);
            }
            lemma_reattach_shape(m1, ov, 0);
        }
        match self.reattach_nodes(&order) {
            Err(e) => {
                return Err(e);
            },
            Ok(()) => {},
        }
        self.update_children_order()
    }

    /// Sets the parent of the node `id`, which exists.
    fn set_parent(&mut self, id: &NodeId, parent: Option<NodeId>)
        requires
            old(self).wf(),
            old(self)@.contains_key(id@),
        ensures
            final(self).wf(),
            final(self).pending() == old(self).pending(),
            final(self)@ == old(self)@.insert(
                id@,
                NodeV { parent: crate::tree_structure::opt_id_view(parent), ..old(self)@[id@] },
            ),
    {
        let i = self.find(id).unwrap();
        let ghost old_nodes = self.nodes@;
        proof {
            crate::tree_structure::lemma_view_index(self.nodes@, i as int);
        }
        self.nodes[i].parent_id = parent;
        proof {
            assert(self.nodes@ == old_nodes.update(i as int, self.nodes@[i as int]));
            lemma_view_update(old_nodes, i as int, self.nodes@[i as int]);
        }
    }
}

/// Whether no two containers are for the same node.
pub fn container_ids_unique(containers: &Vec<NodeContainer>) -> (r: bool)
    ensures
        r == container_ids_distinct(containers_view(containers@)),
{
    let ghost cs = containers_view(containers@);
    let mut i: usize = 0;
    while i < containers.len()
        invariant
            i <= containers.len(),
            cs == containers_view(containers@),
            forall|a: int, b: int| 0 <= a < b < i ==> (#[trigger] cs[a]).id != (#[trigger] cs[b]).id,
        decreases containers.len() - i,
    {
        let mut j: usize = 0;
        while j < i
            invariant
                j <= i < containers.len(),
                cs == containers_view(containers@),
                forall|b: int| 0 <= b < j ==> cs[b].id != cs[i as int].id,
            decreases i - j,
        {
            if containers[j].id.same(&containers[i].id) {
                proof {
                    assert(cs[j as int].id == cs[i as int].id);
                }
                return false;
            }
            j = j + 1;
        }
        i = i + 1;
    }
    true
}

/// Whether the containers can be built from (see `init_from_containers`):
/// no two for the same node, and every node that building reattaches can
/// have an edge raised by one.
pub fn containers_buildable(containers: &Vec<NodeContainer>) -> (r: bool)
    ensures
        r == (container_ids_distinct(containers_view(containers@)) && detached_below_max(
            containers_view(containers@),
        )),
{
    let ghost cs = containers_view(containers@);
    if !container_ids_unique(containers) {
        return false;
    }
    let mut s = TreeStructure::new();
    s.create_initial_nodes(containers);
    match s.process_parents(containers) {
        Err(_) => {
            return true;
        },
        Ok(()) => {},
    }
    let ghost m1 = s@;
    let order = s.detached_nodes();
    let ghost ov = ids_view(order@);
    let mut i: usize = 0;
    while i < order.len()
        invariant
            s.wf(),
            m1 == s@,
            m1 == parented_nodes(cs),
            !some_without_parent(cs),
            container_ids_distinct(cs),
            cs == containers_view(containers@),
            ov == ids_view(order@),
            ov.to_set() == detached(m1),
            i <= order.len(),
            forall|t: int| 0 <= t < i ==> edges_below_max(m1[#[trigger] ov[t]].edges),
        decreases order.len() - i,
    {
        proof {
            assert(ov[i as int] == order@[i as int]@);
            assert(ov.to_set().contains(ov[i as int]));
        }
        let n = s.get_node(&order[i]).unwrap();
        if !n.edge_map.below_max() {
            proof {
                assert(detached(parented_nodes(cs)).contains(ov[i as int]));
                assert(!edges_below_max(parented_nodes(cs)[ov[i as int]].edges));
            }
            return false;
        }
        i = i + 1;
    }
    proof {
        assert forall|x: IdV| #[trigger] detached(parented_nodes(cs)).contains(x) implies edges_below_max(
            parented_nodes(cs)[x].edges,
        ) by {
            assert(ov.to_set().contains(x));
            let t = choose|t: int| 0 <= t < ov.len() && ov[t] == x;
            assert(edges_below_max(m1[ov[t]].edges));
        }
    }
    true
}

impl TreeStructure {
    /// Rebuilds the structure from the containers of the document (see
    /// `spec_init`). Edges added while reattaching are kept as pending.
    /// When building fails, the structure is left as it was, so a poisoned
    /// tree goes on serving its last good state.
    ///
    /// A parent that is not a node gives `MissingParent`.
    pub fn init_from_containers(&mut self, containers: &Vec<NodeContainer>) -> (r: Result<(), TreeError>)
        requires
            old(self).wf(),
            container_ids_distinct(containers_view(containers@)),
            detached_below_max(containers_view(containers@)),
        ensures
            final(self).wf(),
            spec_init(containers_view(containers@)) matches InitOutcome::Built(m, p) ==> r is Ok
                && final(self)@ == m && final(self).pending() == old(self).pending() + p,
            spec_init(containers_view(containers@)) matches InitOutcome::NoParentSet(x) ==> r matches Err(
                e,
            ) && e matches TreeError::BadYrsDoc(msg) && msg@ == no_parent_message(x),
            spec_init(containers_view(containers@)) matches InitOutcome::NoValidParent(x) ==> r matches Err(
                e,
            ) && e matches TreeError::BadYrsDoc(msg) && msg@ == no_valid_parent_message(x),
            spec_init(containers_view(containers@)) matches InitOutcome::ParentMissing(m) ==> r matches Err(
                e,
            ) && e matches TreeError::MissingParent(p) && missing_parent(m, p@),
            r is Err ==> final(self)@ == old(self)@ && final(self).pending() == old(self).pending(),
    {
        let mut fresh = self.clone();
        let r = fresh.build_from(containers);
        match r {
            Ok(()) => {
                *self = fresh;
                Ok(())
            },
            Err(e) => Err(e),
        }
    }
}

} // verus!
