//! What writing to the document does: the repair that building made stays
//! as it is once written back, and a placement, once written, puts the node
//! where it was asked to go.
use vstd::prelude::*;

use crate::edge_map::{edges_below_max, is_top_key, lemma_exists_top_key, lemma_top_key_unique};
use crate::init::{
    ContainerV, InitOutcome, container_ids_distinct, containers_below_max, has_container,
    lemma_container_index, max_value, parented_nodes, reattach_spec, spec_init, top_key,
    with_children, is_best_free_key, container_index, };
use crate::model::{IdV, NodeV, ancestor, parent_in, reaches};
use crate::node::{id_to_key, key_to_id, root_key};
use crate::order::{byte_codes, lex_lt};
use crate::update::{index_fits, left_fi, lemma_top_max, next_edge, others_of, right_fi, slot, without};
use crate::iter::{children_or_empty, first_index};
use crate::order::strictly_sorted;
use crate::init::child_order;

verus! {

/// The document after an edge is written: the container of `x` gets the
/// edge `key` with value `v`.
pub open spec fn with_edge(cs: Seq<ContainerV>, x: IdV, key: Seq<char>, v: i64) -> Seq<ContainerV> {
    cs.map_values(
        |c: ContainerV|
            if c.id == x {
                ContainerV { edges: c.edges.insert(key, v), ..c }
            } else {
                c
            },
    )
}

/// The document after the pending edges (node, parent, value) are written,
/// in order.
pub open spec fn with_pending(cs: Seq<ContainerV>, p: Seq<(IdV, IdV, i64)>) -> Seq<ContainerV>
    decreases p.len(),
{
    if p.len() == 0 {
        cs
    } else {
        with_pending(with_edge(cs, p[0].0, id_to_key(p[0].1), p[0].2), p.drop_first())
    }
}

/// The document after `id` is placed under `parent`: its container gets the
/// edge to `parent` with value `v` and the index `fi`; a node without a
/// container gets one whose only edge is to `parent`, with value 0.
pub open spec fn with_placement(cs: Seq<ContainerV>, id: IdV, parent: IdV, v: i64, fi: Seq<u8>) -> Seq<ContainerV> {
    if has_container(cs, id) {
        cs.map_values(
            |c: ContainerV|
                if c.id == id {
                    ContainerV { edges: c.edges.insert(id_to_key(parent), v), fi, ..c }
                } else {
                    c
                },
        )
    } else {
        cs.push(ContainerV { id, edges: map![id_to_key(parent) => 0i64], fi })
    }
}

/// The nodes of `m` hold the edges and the indices of the containers.
pub open spec fn edges_match(cs: Seq<ContainerV>, m: Map<IdV, NodeV>) -> bool {
    forall|i: int|
        0 <= i < cs.len() ==> m.contains_key(#[trigger] cs[i].id) && m[cs[i].id].edges == cs[i].edges
            && m[cs[i].id].fi == cs[i].fi
}

/// Every node but the root has a finite, non-empty edge map whose top key
/// names its parent; the root is a node without a parent.
pub open spec fn parents_follow_edges(m: Map<IdV, NodeV>) -> bool {
    &&& m.contains_key(None)
    &&& m[None].parent is None
    &&& forall|x: IdV| #[trigger]
        m.contains_key(x) && x is Some ==> m[x].edges.dom().finite() && m[x].edges.len() > 0
            && m[x].parent == Some(key_to_id(top_key(m[x].edges)))
}

proof fn lemma_key_roundtrip(k: Seq<char>)
    ensures
        id_to_key(key_to_id(k)) == k,
{
}

/// Raising one key above every value makes it the top key.
proof fn lemma_raised_is_top(em: Map<Seq<char>, i64>, k: Seq<char>, v: i64)
    requires
        em.dom().finite(),
        em.len() > 0,
        v == max_value(em) + 1,
    ensures
        top_key(em.insert(k, v)) == k,
        em.insert(k, v).dom().finite(),
        em.insert(k, v).len() > 0,
{
    let em2 = em.insert(k, v);
    lemma_exists_top_key(em);
    let t = top_key(em);
    lemma_top_max(em, t);
    assert(is_top_key(em2, k)) by {
        assert forall|k2: Seq<char>| #[trigger] em2.contains_key(k2) && k2 != k implies crate::edge_map::edge_before(
            (k, em2[k]),
            (k2, em2[k2]),
        ) by {
            assert(em.contains_key(k2));
            assert(em[k2] <= em[t]);
        }
    }
    assert(em2.dom().contains(k));
    lemma_exists_top_key(em2);
    lemma_top_key_unique(em2, k, top_key(em2));
}

/// A one-edge map has that edge on top.
proof fn lemma_single_is_top(k: Seq<char>)
    ensures
        top_key(map![k => 0i64]) == k,
        map![k => 0i64].dom().finite(),
        map![k => 0i64].len() > 0,
{
    let em = map![k => 0i64];
    assert(em.dom() =~= set![k]);
    assert(is_top_key(em, k));
    lemma_exists_top_key(em);
    lemma_top_key_unique(em, k, top_key(em));
}

/// The nodes built from the containers hold their edges and follow them.
proof fn lemma_parented_start(cs: Seq<ContainerV>)
    requires
        container_ids_distinct(cs),
        !has_container(cs, None),
        forall|i: int| 0 <= i < cs.len() ==> (#[trigger] cs[i]).edges.dom().finite() && cs[i].edges.len() > 0,
    ensures
        edges_match(cs, parented_nodes(cs)),
        parents_follow_edges(parented_nodes(cs)),
{
    let m = parented_nodes(cs);
    assert forall|i: int| 0 <= i < cs.len() implies m.contains_key(#[trigger] cs[i].id) && m[cs[i].id].edges
        == cs[i].edges && m[cs[i].id].fi == cs[i].fi by {
        lemma_container_index(cs, i);
    }
    assert forall|x: IdV| #[trigger] m.contains_key(x) && x is Some implies m[x].edges.dom().finite()
        && m[x].edges.len() > 0 && m[x].parent == Some(key_to_id(top_key(m[x].edges))) by {
        let i = container_index(cs, x);
        assert(0 <= i < cs.len() && cs[i].id == x);
        lemma_container_index(cs, i);
    }
}

/// Reattaching keeps the nodes holding the edges of the document once the
/// pending edges are written, and keeps them following their edges.
proof fn lemma_reattach_edges(cs: Seq<ContainerV>, m: Map<IdV, NodeV>, order: Seq<IdV>, i: int)
    requires
        edges_match(cs, m),
        parents_follow_edges(m),
        order.no_duplicates(),
        forall|t: int| 0 <= t < order.len() ==> m.contains_key(#[trigger] order[t]),
        forall|t: int| i <= t < order.len() ==> edges_below_max(m[#[trigger] order[t]].edges),
    ensures
        reattach_spec(m, order, i) matches Ok((m2, q)) ==> edges_match(with_pending(cs, q), m2)
            && parents_follow_edges(m2) && m2.dom() == m.dom() && with_pending(cs, q).len() == cs.len()
            && forall|j: int| 0 <= j < cs.len() ==> (#[trigger] with_pending(cs, q)[j]).id == cs[j].id,
    decreases order.len() - i,
{
    if i < 0 || i >= order.len() {
        assert(with_pending(cs, Seq::empty()) == cs);
    } else {
        let x = order[i];
        if reaches(m, x, None) {
            lemma_reattach_edges(cs, m, order, i + 1);
        } else if exists|k: Seq<char>| is_best_free_key(m[x].edges, order, i, k) {
            let em = m[x].edges;
            let k = choose|k: Seq<char>| is_best_free_key(em, order, i, k);
            let v = (max_value(em) + 1) as i64;
            let m1 = m.insert(x, NodeV { parent: Some(key_to_id(k)), edges: em.insert(k, v), ..m[x] });
            assert(x is Some) by {
                if x is None {
                    assert(parent_in(m, x) is None);
                }
            }
            lemma_exists_top_key(em);
            lemma_top_max(em, top_key(em));
            assert(em[top_key(em)] < i64::MAX);
            lemma_raised_is_top(em, k, v);
            let cs1 = with_edge(cs, x, k, v);
            assert(edges_match(cs1, m1)) by {
                assert forall|j: int| 0 <= j < cs1.len() implies m1.contains_key(#[trigger] cs1[j].id)
                    && m1[cs1[j].id].edges == cs1[j].edges && m1[cs1[j].id].fi == cs1[j].fi by {
                    assert(m.contains_key(cs[j].id));
                }
            }
            assert forall|t: int| i + 1 <= t < order.len() implies edges_below_max(m1[#[trigger] order[t]].edges) by {
                assert(order[t] != order[i]);
            }
            assert forall|t: int| 0 <= t < order.len() implies m1.contains_key(#[trigger] order[t]) by {
                assert(m.contains_key(order[t]));
            }
            assert(m1.dom() =~= m.dom());
            lemma_reattach_edges(cs1, m1, order, i + 1);
            match reattach_spec(m1, order, i + 1) {
                Ok((m3, q1)) => {
                    let q = seq![(x, key_to_id(k), v)] + q1;
                    assert(q.drop_first() =~= q1);
                    lemma_key_roundtrip(k);
                    assert(with_pending(cs, q) == with_pending(cs1, q1));
                },
                Err(_) => {},
            }
        }
    }
}

/// What building from a document gives, in terms of the document with the
/// pending edges written: its nodes hold those edges and follow them, every
/// parent is a node, and the containers keep their ids.
proof fn lemma_built_facts(cs: Seq<ContainerV>)
    requires
        container_ids_distinct(cs),
        containers_below_max(cs),
        !has_container(cs, None),
        forall|i: int| 0 <= i < cs.len() ==> (#[trigger] cs[i]).edges.dom().finite(),
        spec_init(cs) is Built,
    ensures
        ({
            let m = spec_init(cs)->Built_0;
            let p = spec_init(cs)->Built_1;
            let cs1 = with_pending(cs, p);
            &&& edges_match(cs1, m)
            &&& parents_follow_edges(m)
            &&& cs1.len() == cs.len()
            &&& forall|j: int| 0 <= j < cs.len() ==> (#[trigger] cs1[j]).id == cs[j].id
            &&& forall|x: IdV, q: IdV| #[trigger] m.contains_key(x) && m[x].parent == Some(q) ==> #[trigger] m.contains_key(q)
            &&& m.dom() == parented_nodes(cs).dom()
        }),
{
    assert(!crate::init::some_without_parent(cs));
    assert forall|i: int| 0 <= i < cs.len() implies (#[trigger] cs[i]).edges.dom().finite() && cs[i].edges.len() > 0 by {
        assert(cs[i].edges.len() != 0);
    }
    let m1 = parented_nodes(cs);
    lemma_parented_start(cs);
    crate::laws::lemma_parented_dom_finite(cs);
    crate::laws::lemma_detached_order(m1);
    let order = crate::init::detached_order(m1);
    assert forall|t: int| 0 <= t < order.len() implies edges_below_max(m1[#[trigger] order[t]].edges) by {
        let x = order[t];
        assert(m1.contains_key(x));
        if x is None {
            assert(crate::init::detached(m1).contains(x));
        }
        let i = container_index(cs, x);
        lemma_container_index(cs, i);
        assert(edges_below_max(cs[i].edges));
    }
    lemma_reattach_edges(cs, m1, order, 0);
    let (m2, p) = reattach_spec(m1, order, 0)->Ok_0;
    let m = with_children(m2);
    assert forall|x: IdV, q: IdV| #[trigger] m.contains_key(x) && m[x].parent == Some(q) implies #[trigger] m.contains_key(q) by {
        if !m.contains_key(q) {
            assert(crate::init::missing_parent(m2, q));
        }
    }
    assert(m.dom() =~= m2.dom());
}

/// A valid id names itself through its key: only an ordinary id spelled
/// like the root's key does not.
proof fn lemma_id_roundtrip(x: IdV)
    requires
        x != Some(root_key()),
    ensures
        key_to_id(id_to_key(x)) == x,
{
}

/// The node that building gives for the container at `i`.
proof fn lemma_parented_at(cs: Seq<ContainerV>, i: int)
    requires
        container_ids_distinct(cs),
        0 <= i < cs.len(),
    ensures
        parented_nodes(cs).contains_key(cs[i].id),
        parented_nodes(cs)[cs[i].id].parent == Some(key_to_id(top_key(cs[i].edges))),
{
    lemma_container_index(cs, i);
}

/// Placing `id` under `parent` in a document whose nodes `m` hold its edges
/// and follow them changes the parent of `id` alone, to `parent`.
proof fn lemma_placed_parents(
    cs1: Seq<ContainerV>,
    m: Map<IdV, NodeV>,
    id: IdV,
    parent: IdV,
    v: i64,
    fi: Seq<u8>,
)
    requires
        container_ids_distinct(cs1),
        !has_container(cs1, None),
        edges_match(cs1, m),
        parents_follow_edges(m),
        forall|x: IdV| #[trigger] m.contains_key(x) <==> x is None || has_container(cs1, x),
        id is Some,
        id != Some(root_key()),
        parent != Some(root_key()),
        has_container(cs1, id) ==> edges_below_max(m[id].edges) && v == next_edge(m[id].edges),
    ensures
        ({
            let cs2 = with_placement(cs1, id, parent, v, fi);
            let b = parented_nodes(cs2);
            &&& container_ids_distinct(cs2)
            &&& !has_container(cs2, None)
            &&& forall|i: int| 0 <= i < cs2.len() ==> (#[trigger] cs2[i]).edges.dom().finite() && cs2[i].edges.len() > 0
            &&& forall|z: IdV| #[trigger] b.contains_key(z) <==> m.contains_key(z) || z == id
            &&& forall|z: IdV| z != id ==> #[trigger] parent_in(b, z) == parent_in(m, z)
            &&& parent_in(b, id) == Some(parent)
            &&& forall|z: IdV| #[trigger] b.contains_key(z) && z != id && z is Some ==> b[z].fi == m[z].fi
            &&& b[id].fi == fi
        }),
{
    let cs2 = with_placement(cs1, id, parent, v, fi);
    let b = parented_nodes(cs2);
    let key = id_to_key(parent);
    lemma_id_roundtrip(parent);
    assert forall|i: int| 0 <= i < cs1.len() implies (#[trigger] cs1[i]).edges.dom().finite() && cs1[i].edges.len()
        > 0 by {
        assert(m.contains_key(cs1[i].id));
        assert(cs1[i].id is Some) by {
            if cs1[i].id is None {
                assert(has_container(cs1, None));
            }
        }
    }
    if has_container(cs1, id) {
        let k = container_index(cs1, id);
        lemma_container_index(cs1, k);
        let em = cs1[k].edges;
        assert(em == m[id].edges);
        lemma_exists_top_key(em);
        lemma_top_max(em, top_key(em));
        lemma_raised_is_top(em, key, v);
        assert(cs2.len() == cs1.len());
        assert forall|i: int, j: int| 0 <= i < j < cs2.len() implies (#[trigger] cs2[i]).id != (#[trigger] cs2[j]).id by {
            assert(cs1[i].id != cs1[j].id);
        }
        assert(!has_container(cs2, None)) by {
            if has_container(cs2, None) {
                let i = choose|i: int| 0 <= i < cs2.len() && (#[trigger] cs2[i]).id == None::<Seq<char>>;
                assert(cs1[i].id == None::<Seq<char>>);
            }
        }
        assert forall|z: IdV| #[trigger] b.contains_key(z) <==> m.contains_key(z) || z == id by {
            if has_container(cs2, z) {
                let i = choose|i: int| 0 <= i < cs2.len() && (#[trigger] cs2[i]).id == z;
                assert(cs1[i].id == z);
            }
            if has_container(cs1, z) {
                let i = choose|i: int| 0 <= i < cs1.len() && (#[trigger] cs1[i]).id == z;
                assert(cs2[i].id == z);
            }
        }
        assert forall|z: IdV| z != id implies #[trigger] parent_in(b, z) == parent_in(m, z) by {
            if has_container(cs1, z) {
                let i = container_index(cs1, z);
                lemma_container_index(cs1, i);
                assert(cs2[i] == cs1[i]);
                lemma_parented_at(cs2, i);
                assert(m.contains_key(z) && z is Some);
            } else if z is Some {
                assert(!m.contains_key(z));
                if has_container(cs2, z) {
                    let i = choose|i: int| 0 <= i < cs2.len() && (#[trigger] cs2[i]).id == z;
                    assert(cs1[i].id == z);
                }
            }
        }
        lemma_parented_at(cs2, k);
        assert(cs2[k].edges == em.insert(key, v));
        assert forall|z: IdV| #[trigger] b.contains_key(z) && z != id && z is Some implies b[z].fi == m[z].fi by {
            let i = container_index(cs1, z);
            lemma_container_index(cs1, i);
            assert(cs2[i] == cs1[i]);
            lemma_container_index(cs2, i);
        }
        lemma_container_index(cs2, k);
    } else {
        let n = cs1.len() as int;
        let single = map![key => 0i64];
        lemma_single_is_top(key);
        assert(cs2.len() == n + 1);
        assert(cs2[n].id == id && cs2[n].edges == single);
        assert forall|i: int, j: int| 0 <= i < j < cs2.len() implies (#[trigger] cs2[i]).id != (#[trigger] cs2[j]).id by {
            if j < n {
                assert(cs1[i].id != cs1[j].id);
            } else {
                assert(cs2[i] == cs1[i]);
                if cs1[i].id == id {
                    assert(has_container(cs1, id));
                }
            }
        }
        assert(!has_container(cs2, None)) by {
            if has_container(cs2, None) {
                let i = choose|i: int| 0 <= i < cs2.len() && (#[trigger] cs2[i]).id == None::<Seq<char>>;
                if i < n {
                    assert(cs1[i].id == None::<Seq<char>>);
                }
            }
        }
        assert forall|i: int| 0 <= i < cs2.len() implies (#[trigger] cs2[i]).edges.dom().finite() && cs2[i].edges.len()
            > 0 by {
            if i < n {
                assert(cs2[i] == cs1[i]);
            }
        }
        assert forall|z: IdV| #[trigger] b.contains_key(z) <==> m.contains_key(z) || z == id by {
            if has_container(cs2, z) {
                let i = choose|i: int| 0 <= i < cs2.len() && (#[trigger] cs2[i]).id == z;
                if i < n {
                    assert(cs1[i].id == z);
                }
            }
            if has_container(cs1, z) {
                let i = choose|i: int| 0 <= i < cs1.len() && (#[trigger] cs1[i]).id == z;
                assert(cs2[i].id == z);
            }
            if z == id {
                assert(cs2[n].id == z);
            }
        }
        assert forall|z: IdV| z != id implies #[trigger] parent_in(b, z) == parent_in(m, z) by {
            if has_container(cs1, z) {
                let i = container_index(cs1, z);
                lemma_container_index(cs1, i);
                assert(cs2[i] == cs1[i]);
                lemma_parented_at(cs2, i);
                assert(m.contains_key(z) && z is Some);
            } else if z is Some {
                assert(!m.contains_key(z));
                if has_container(cs2, z) {
                    let i = choose|i: int| 0 <= i < cs2.len() && (#[trigger] cs2[i]).id == z;
                    if i < n {
                        assert(cs1[i].id == z);
                    }
                }
            }
        }
        lemma_parented_at(cs2, n);
        assert forall|z: IdV| #[trigger] b.contains_key(z) && z != id && z is Some implies b[z].fi == m[z].fi by {
            let i = container_index(cs1, z);
            lemma_container_index(cs1, i);
            assert(cs2[i] == cs1[i]);
            lemma_container_index(cs2, i);
        }
        lemma_container_index(cs2, n);
    }
}

/// Chains that pass only through nodes whose parents two maps agree on are
/// the same in both.
proof fn lemma_agree_chain(a: Map<IdV, NodeV>, b: Map<IdV, NodeV>, y: IdV, k: nat)
    requires
        forall|j: nat| j < k ==> #[trigger] ancestor(a, y, j) is Some && parent_in(a, ancestor(a, y, j)->0)
            == parent_in(b, ancestor(a, y, j)->0),
    ensures
        forall|j: nat| j <= k ==> #[trigger] ancestor(b, y, j) == ancestor(a, y, j),
    decreases k,
{
    if k > 0 {
        lemma_agree_chain(a, b, y, (k - 1) as nat);
        assert forall|j: nat| j <= k implies #[trigger] ancestor(b, y, j) == ancestor(a, y, j) by {
            if j == k {
                let z = ancestor(a, y, (k - 1) as nat)->0;
                assert(ancestor(a, y, (k - 1) as nat) is Some);
                assert(ancestor(b, y, (k - 1) as nat) == Some(z));
                assert(ancestor(b, y, k) == parent_in(b, z));
                assert(ancestor(a, y, k) == parent_in(a, z));
            }
        }
    }
}

/// The first step at which the chain above `x` meets `t`, given a step
/// `k0` at which it does.
proof fn first_hit(a: Map<IdV, NodeV>, x: IdV, t: IdV, k0: nat) -> (j: nat)
    requires
        ancestor(a, x, k0) == Some(t),
    ensures
        j <= k0,
        ancestor(a, x, j) == Some(t),
        forall|i: nat| i < j ==> #[trigger] ancestor(a, x, i) != Some(t),
    decreases k0,
{
    if exists|i: nat| i < k0 && #[trigger] ancestor(a, x, i) == Some(t) {
        let i = choose|i: nat| i < k0 && #[trigger] ancestor(a, x, i) == Some(t);
        first_hit(a, x, t, i)
    } else {
        k0
    }
}

/// Before a step at which the chain exists, it exists at every step.
proof fn lemma_chain_exists_before(a: Map<IdV, NodeV>, x: IdV, k: nat)
    requires
        ancestor(a, x, k) is Some,
    ensures
        forall|j: nat| j <= k ==> #[trigger] ancestor(a, x, j) is Some,
{
    assert forall|j: nat| j <= k implies #[trigger] ancestor(a, x, j) is Some by {
        if ancestor(a, x, j) is None {
            crate::model::lemma_ancestor_none(a, x, j, k);
        }
    }
}

/// Giving `id` the parent `parent`, which is not `id` nor below it, keeps
/// every node reaching the root.
proof fn lemma_placed_rooted(m: Map<IdV, NodeV>, b: Map<IdV, NodeV>, id: IdV, parent: IdV)
    requires
        forall|z: IdV| z != id ==> #[trigger] parent_in(b, z) == parent_in(m, z),
        parent_in(b, id) == Some(parent),
        forall|x: IdV| #[trigger] m.contains_key(x) ==> reaches(m, x, None),
        forall|x: IdV| #[trigger] m.contains_key(x) && x is Some ==> parent_in(m, x) is Some,
        m.contains_key(parent),
        parent_in(m, None) is None,
        forall|k: nat| #[trigger] ancestor(m, parent, k) != Some(id),
        forall|z: IdV| #[trigger] b.contains_key(z) <==> m.contains_key(z) || z == id,
        id is Some,
    ensures
        forall|x: IdV| #[trigger] b.contains_key(x) ==> reaches(b, x, None),
{
    let kp: nat = if parent is None {
        0
    } else {
        assert(reaches(m, parent, None));
        choose|k: nat| k >= 1 && ancestor(m, parent, k) == Some(None::<Seq<char>>)
    };
    assert(ancestor(m, parent, kp) == Some(None::<Seq<char>>));
    lemma_chain_exists_before(m, parent, kp);
    assert forall|j: nat| j < kp implies #[trigger] ancestor(m, parent, j) is Some && parent_in(
        m,
        ancestor(m, parent, j)->0,
    ) == parent_in(b, ancestor(m, parent, j)->0) by {
        assert(ancestor(m, parent, j) != Some(id));
    }
    lemma_agree_chain(m, b, parent, kp);
    assert(ancestor(b, parent, kp) == Some(None::<Seq<char>>));
    assert(ancestor(b, id, 1) == Some(parent)) by {
        assert(ancestor(b, id, 0) == Some(id));
    }
    crate::laws::lemma_ancestor_compose(b, id, 1, kp, parent);
    assert(ancestor(b, id, 1 + kp) == Some(None::<Seq<char>>));
    assert forall|x: IdV| #[trigger] b.contains_key(x) implies reaches(b, x, None) by {
        if x is None {
            assert(parent_in(b, x) is None);
        } else if x == id {
            assert(ancestor(b, x, 1 + kp) == Some(None::<Seq<char>>));
        } else {
            assert(m.contains_key(x));
            assert(reaches(m, x, None));
            assert(parent_in(m, x) is Some);
            let kx = choose|k: nat| k >= 1 && ancestor(m, x, k) == Some(None::<Seq<char>>);
            lemma_chain_exists_before(m, x, kx);
            if exists|j: nat| j <= kx && #[trigger] ancestor(m, x, j) == Some(id) {
                let j1 = choose|j: nat| j <= kx && #[trigger] ancestor(m, x, j) == Some(id);
                let j0 = first_hit(m, x, id, j1);
                assert(j0 >= 1) by {
                    assert(ancestor(m, x, 0) == Some(x));
                }
                lemma_chain_exists_before(m, x, j0);
                assert forall|j: nat| j < j0 implies #[trigger] ancestor(m, x, j) is Some && parent_in(
                    m,
                    ancestor(m, x, j)->0,
                ) == parent_in(b, ancestor(m, x, j)->0) by {
                    assert(ancestor(m, x, j) != Some(id));
                }
                lemma_agree_chain(m, b, x, j0);
                assert(ancestor(b, x, j0) == Some(id));
                crate::laws::lemma_ancestor_compose(b, x, j0, 1 + kp, id);
                assert(ancestor(b, x, j0 + 1 + kp) == Some(None::<Seq<char>>));
            } else {
                assert forall|j: nat| j < kx implies #[trigger] ancestor(m, x, j) is Some && parent_in(
                    m,
                    ancestor(m, x, j)->0,
                ) == parent_in(b, ancestor(m, x, j)->0) by {
                    assert(ancestor(m, x, j) != Some(id));
                }
                lemma_agree_chain(m, b, x, kx);
                assert(ancestor(b, x, kx) == Some(None::<Seq<char>>));
            }
        }
    }
}

/// The edge value that placing `id` writes: one more than its highest for a
/// node that exists, 0 for a new one.
pub open spec fn placement_edge(m: Map<IdV, NodeV>, id: IdV) -> i64 {
    if m.contains_key(id) {
        next_edge(m[id].edges)
    } else {
        0
    }
}

/// A move puts the node where it was asked to go: take the tree built from
/// a document, and place `id` (a new node or an existing one) under
/// `parent`, which is a node and neither `id` nor below it. Once the edges
/// that repairing left pending and then the placement are written to the
/// document, building again gives a tree with `id` under `parent`, every
/// other node under the parent it had, and nothing more to repair. This
/// holds whatever fractional index the placement writes.
pub proof fn law_placement_moves_node(cs: Seq<ContainerV>, id: IdV, parent: IdV, fi: Seq<u8>)
    requires
        container_ids_distinct(cs),
        containers_below_max(cs),
        !has_container(cs, None),
        forall|i: int| 0 <= i < cs.len() ==> (#[trigger] cs[i]).edges.dom().finite(),
        spec_init(cs) is Built,
        id is Some,
        id != Some(root_key()),
        parent != Some(root_key()),
        spec_init(cs)->Built_0.contains_key(parent),
        spec_init(cs)->Built_0.contains_key(id) ==> edges_below_max(spec_init(cs)->Built_0[id].edges),
        forall|k: nat| #[trigger] ancestor(spec_init(cs)->Built_0, parent, k) != Some(id),
    ensures
        ({
            let m = spec_init(cs)->Built_0;
            let p = spec_init(cs)->Built_1;
            let cs2 = with_placement(with_pending(cs, p), id, parent, placement_edge(m, id), fi);
            &&& spec_init(cs2) is Built
            &&& spec_init(cs2)->Built_1.len() == 0
            &&& spec_init(cs2)->Built_0.contains_key(id)
            &&& spec_init(cs2)->Built_0[id].parent == Some(parent)
            &&& forall|x: IdV| #[trigger] m.contains_key(x) && x != id ==> spec_init(cs2)->Built_0.contains_key(x)
                && spec_init(cs2)->Built_0[x].parent == m[x].parent
            &&& spec_init(cs2)->Built_0[id].fi == fi
            &&& forall|x: IdV| #[trigger] m.contains_key(x) && x != id && x is Some ==> spec_init(cs2)->Built_0[x].fi
                == m[x].fi
            &&& container_ids_distinct(cs2)
            &&& forall|x: IdV| #[trigger] spec_init(cs2)->Built_0.contains_key(x) <==> m.contains_key(x) || x == id
        }),
{
    let m = spec_init(cs)->Built_0;
    let p = spec_init(cs)->Built_1;
    let cs1 = with_pending(cs, p);
    let v = placement_edge(m, id);
    lemma_built_facts(cs);
    crate::laws::law_built_tree_is_rooted(cs);
    assert(container_ids_distinct(cs1)) by {
        assert forall|i: int, j: int| 0 <= i < j < cs1.len() implies (#[trigger] cs1[i]).id != (#[trigger] cs1[j]).id by {
            assert(cs[i].id != cs[j].id);
        }
    }
    assert forall|x: IdV| has_container(cs1, x) <==> has_container(cs, x) by {
        if has_container(cs1, x) {
            let i = choose|i: int| 0 <= i < cs1.len() && (#[trigger] cs1[i]).id == x;
            assert(cs[i].id == x);
        }
        if has_container(cs, x) {
            let i = choose|i: int| 0 <= i < cs.len() && (#[trigger] cs[i]).id == x;
            assert(cs1[i].id == x);
        }
    }
    assert forall|x: IdV| #[trigger] m.contains_key(x) <==> x is None || has_container(cs1, x) by {
        assert(parented_nodes(cs).contains_key(x) <==> x is None || has_container(cs, x));
    }
    lemma_placed_parents(cs1, m, id, parent, v, fi);
    let cs2 = with_placement(cs1, id, parent, v, fi);
    let b = parented_nodes(cs2);
    assert forall|x: IdV| #[trigger] m.contains_key(x) && x is Some implies parent_in(m, x) is Some by {}
    lemma_placed_rooted(m, b, id, parent);
    assert forall|x: IdV, q: IdV| #[trigger] b.contains_key(x) && b[x].parent == Some(q) implies #[trigger] b.contains_key(q) by {
        assert(parent_in(b, x) == Some(q));
        if x != id {
            assert(parent_in(m, x) == Some(q));
            assert(m.contains_key(x) && m[x].parent == Some(q));
        }
    }
    lemma_build_settled(cs2);
    assert(spec_init(cs2) == InitOutcome::Built(with_children(b), Seq::empty()));
    assert(parent_in(b, id) == Some(parent));
    assert forall|x: IdV| #[trigger] m.contains_key(x) && x != id implies with_children(b).contains_key(x)
        && with_children(b)[x].parent == m[x].parent by {
        assert(parent_in(b, x) == parent_in(m, x));
    }
    assert forall|x: IdV| #[trigger] m.contains_key(x) && x != id && x is Some implies with_children(b)[x].fi
        == m[x].fi by {
        assert(b.contains_key(x));
    }
}

/// A node placed at the end of a parent's children comes last: when the
/// index written for it comes after the index of the parent's last child
/// (as `FractionalIndex::new_after` promises for the index that placing at
/// the end computes), building again lists it as the parent's last child.
pub proof fn law_placed_at_end_is_last(cs: Seq<ContainerV>, id: IdV, parent: IdV, fi: Seq<u8>)
    requires
        container_ids_distinct(cs),
        containers_below_max(cs),
        !has_container(cs, None),
        forall|i: int| 0 <= i < cs.len() ==> (#[trigger] cs[i]).edges.dom().finite(),
        spec_init(cs) is Built,
        id is Some,
        id != Some(root_key()),
        parent != Some(root_key()),
        spec_init(cs)->Built_0.contains_key(parent),
        spec_init(cs)->Built_0.contains_key(id) ==> edges_below_max(spec_init(cs)->Built_0[id].edges),
        forall|k: nat| #[trigger] ancestor(spec_init(cs)->Built_0, parent, k) != Some(id),
        ({
            let m = spec_init(cs)->Built_0;
            let c = m[parent].children;
            c.len() > 0 ==> lex_lt(byte_codes(m[c.last()].fi), byte_codes(fi))
        }),
    ensures
        ({
            let m = spec_init(cs)->Built_0;
            let p = spec_init(cs)->Built_1;
            let cs2 = with_placement(with_pending(cs, p), id, parent, placement_edge(m, id), fi);
            let c2 = spec_init(cs2)->Built_0[parent].children;
            c2.len() > 0 && c2.last() == id
        }),
{
    let m = spec_init(cs)->Built_0;
    let p = spec_init(cs)->Built_1;
    let cs2 = with_placement(with_pending(cs, p), id, parent, placement_edge(m, id), fi);
    law_placement_moves_node(cs, id, parent, fi);
    let m2 = spec_init(cs2)->Built_0;
    crate::laws::law_built_children_match_parents(cs);
    crate::laws::law_built_children_match_parents(cs2);
    let c = m[parent].children;
    let c2 = m2[parent].children;
    assert(m2.contains_key(parent));
    assert(c2.contains(id));
    // Every other child of `parent` comes before `id`.
    assert forall|y: IdV| c2.contains(y) && y != id implies #[trigger] crate::init::child_order(m2)(y, id) by {
        assert(m2.contains_key(y) && m2[y].parent == Some(parent));
        assert(m.contains_key(y));
        assert(m[y].parent == Some(parent));
        assert(c.contains(y));
        assert(y is Some) by {
            if y is None {
                assert(m[None::<Seq<char>>].parent is None) by {
                    lemma_built_facts(cs);
                }
            }
        }
        let j = choose|j: int| 0 <= j < c.len() && c[j] == y;
        let last = c.last();
        assert(lex_lt(byte_codes(m[last].fi), byte_codes(fi)));
        if j < c.len() - 1 {
            assert(crate::init::child_order(m)(c[j], c[c.len() - 1]));
            if lex_lt(byte_codes(m[y].fi), byte_codes(m[last].fi)) {
                crate::order::lemma_lex_transitive(byte_codes(m[y].fi), byte_codes(m[last].fi), byte_codes(fi));
            }
        }
        assert(m2[y].fi == m[y].fi);
        assert(m2[id].fi == fi);
    }
    let k = choose|k: int| 0 <= k < c2.len() && c2[k] == id;
    if k < c2.len() - 1 {
        let y = c2[c2.len() - 1];
        assert(crate::init::child_order(m2)(c2[k], c2[c2.len() - 1]));
        if y == id {
            assert(crate::init::child_order(m2)(id, id));
            crate::order::lemma_lex_irreflexive(byte_codes(m2[id].fi));
            assert(!crate::node::id_lt(id, id)) by {
                crate::node::lemma_id_lt_asymmetric(id, id);
            }
        } else {
            assert(c2.contains(y));
            assert(crate::init::child_order(m2)(y, id));
            crate::order::lemma_lex_asymmetric(byte_codes(m2[id].fi), byte_codes(m2[y].fi));
            crate::node::lemma_id_lt_asymmetric(id, y);
        }
    }
}

/// Building from containers that all have edges, whose nodes all reach the
/// root under their top keys and name only nodes as parents, keeps those
/// parents and repairs nothing.
proof fn lemma_build_settled(cs2: Seq<ContainerV>)
    requires
        forall|i: int| 0 <= i < cs2.len() ==> (#[trigger] cs2[i]).edges.len() > 0,
        forall|x: IdV| #[trigger] parented_nodes(cs2).contains_key(x) ==> reaches(parented_nodes(cs2), x, None),
        forall|x: IdV, q: IdV| #[trigger] parented_nodes(cs2).contains_key(x) && parented_nodes(cs2)[x].parent == Some(q)
            ==> #[trigger] parented_nodes(cs2).contains_key(q),
    ensures
        spec_init(cs2) == InitOutcome::Built(with_children(parented_nodes(cs2)), Seq::empty()),
{
    let b = parented_nodes(cs2);
    assert(!crate::init::some_without_parent(cs2)) by {
        if crate::init::some_without_parent(cs2) {
            let i = choose|i: int| 0 <= i < cs2.len() && (#[trigger] cs2[i]).edges.len() == 0;
            assert(cs2[i].edges.len() > 0);
        }
    }
    crate::laws::lemma_parented_dom_finite(cs2);
    crate::laws::lemma_detached_order(b);
    let order = crate::init::detached_order(b);
    assert(order.len() == 0) by {
        if order.len() > 0 {
            assert(order.to_set().contains(order[0]));
            assert(crate::init::detached(b).contains(order[0]));
        }
    }
    assert(reattach_spec(b, order, 0) == Ok::<(Map<IdV, NodeV>, Seq<(IdV, IdV, i64)>), IdV>((b, Seq::empty())));
    assert(!exists|q: IdV| crate::init::missing_parent(b, q)) by {
        if exists|q: IdV| crate::init::missing_parent(b, q) {
            let q = choose|q: IdV| crate::init::missing_parent(b, q);
            let x = choose|x: IdV| #[trigger] b.contains_key(x) && b[x].parent == Some(q);
            assert(b.contains_key(q));
        }
    }
}

/// Reattaching leaves every node outside the order as it was.
proof fn lemma_reattach_keeps(m: Map<IdV, NodeV>, order: Seq<IdV>, i: int, y: IdV)
    requires
        forall|t: int| i <= t < order.len() ==> #[trigger] order[t] != y,
    ensures
        reattach_spec(m, order, i) matches Ok((m2, q)) ==> m2.contains_key(y) == m.contains_key(y)
            && (m.contains_key(y) ==> m2[y] == m[y]),
    decreases order.len() - i,
{
    if 0 <= i < order.len() {
        let x = order[i];
        if reaches(m, x, None) {
            lemma_reattach_keeps(m, order, i + 1, y);
        } else if exists|k: Seq<char>| is_best_free_key(m[x].edges, order, i, k) {
            let em = m[x].edges;
            let k = choose|k: Seq<char>| is_best_free_key(em, order, i, k);
            let v = (max_value(em) + 1) as i64;
            let m1 = m.insert(x, NodeV { parent: Some(key_to_id(k)), edges: em.insert(k, v), ..m[x] });
            lemma_reattach_keeps(m1, order, i + 1, y);
        }
    }
}

/// Writing back the repair is stable: once the edges that repairing added
/// are written to the document, building again gives the same tree, with
/// nothing more to repair.
pub proof fn law_written_repair_is_stable(cs: Seq<ContainerV>)
    requires
        container_ids_distinct(cs),
        containers_below_max(cs),
        !has_container(cs, None),
        forall|i: int| 0 <= i < cs.len() ==> (#[trigger] cs[i]).edges.dom().finite(),
        spec_init(cs) is Built,
    ensures
        spec_init(with_pending(cs, spec_init(cs)->Built_1)) == InitOutcome::Built(
            spec_init(cs)->Built_0,
            Seq::empty(),
        ),
{
    let m = spec_init(cs)->Built_0;
    let p = spec_init(cs)->Built_1;
    let cs1 = with_pending(cs, p);
    lemma_built_facts(cs);
    crate::laws::law_built_tree_is_rooted(cs);
    let m1 = parented_nodes(cs);
    crate::laws::lemma_parented_dom_finite(cs);
    crate::laws::lemma_detached_order(m1);
    let order = crate::init::detached_order(m1);
    crate::init::lemma_reattach_shape(m1, order, 0);
    let (m2, p2) = reattach_spec(m1, order, 0)->Ok_0;
    assert(m == with_children(m2));
    // The document with the repair written holds the nodes of `m2`.
    assert(container_ids_distinct(cs1)) by {
        assert forall|i: int, j: int| 0 <= i < j < cs1.len() implies (#[trigger] cs1[i]).id != (#[trigger] cs1[j]).id by {
            assert(cs[i].id != cs[j].id);
        }
    }
    let b = parented_nodes(cs1);
    assert forall|x: IdV| b.contains_key(x) <==> m2.contains_key(x) by {
        if has_container(cs1, x) {
            let i = choose|i: int| 0 <= i < cs1.len() && (#[trigger] cs1[i]).id == x;
            assert(cs[i].id == x);
            assert(m1.contains_key(x));
        }
        if has_container(cs, x) {
            let i = choose|i: int| 0 <= i < cs.len() && (#[trigger] cs[i]).id == x;
            assert(cs1[i].id == x);
        }
    }
    assert forall|x: IdV| #[trigger] b.contains_key(x) implies b[x] == m2[x] by {
        if x is None {
            assert(!order.contains(None::<Seq<char>>)) by {
                if order.contains(None::<Seq<char>>) {
                    assert(crate::init::detached(m1).contains(None::<Seq<char>>));
                }
            }
            lemma_reattach_keeps(m1, order, 0, None);
            assert(!has_container(cs1, None)) by {
                if has_container(cs1, None) {
                    let i = choose|i: int| 0 <= i < cs1.len() && (#[trigger] cs1[i]).id == None::<Seq<char>>;
                    assert(cs[i].id == None::<Seq<char>>);
                }
            }
        } else {
            let i = container_index(cs1, x);
            lemma_container_index(cs1, i);
            assert(m.contains_key(cs1[i].id));
            assert(m2[x].children == m1[x].children);
        }
    }
    assert(b =~= m2);
    assert forall|i: int| 0 <= i < cs1.len() implies (#[trigger] cs1[i]).edges.len() > 0 by {
        assert(m.contains_key(cs1[i].id));
        assert(cs1[i].id is Some) by {
            if cs1[i].id is None {
                assert(cs[i].id is None);
            }
        }
    }
    assert forall|x: IdV| #[trigger] b.contains_key(x) implies reaches(b, x, None) by {
        crate::laws::lemma_with_children_reaches(m2, x);
    }
    lemma_build_settled(cs1);
}

/// The other children, taken out of a list sorted by an irreflexive `lt`:
/// the members are those of the list but `id`, and the list stays sorted.
proof fn lemma_others(c: Seq<IdV>, id: IdV, lt: spec_fn(IdV, IdV) -> bool)
    requires
        strictly_sorted(c, lt),
        forall|x: IdV| !(#[trigger] lt(x, x)),
    ensures
        strictly_sorted(without(c, id), lt),
        forall|y: IdV| #[trigger] without(c, id).contains(y) <==> c.contains(y) && y != id,
{
    if c.contains(id) {
        let k0 = choose|k: int| 0 <= k < c.len() && c[k] == id;
        let f = first_hit_seq(c, id, k0);
        let k = first_index(c, id);
        assert(0 <= k < c.len() && c[k] == id);
        let o = c.remove(k);
        assert(without(c, id) == o);
        lemma_remove_sorted(c, k, lt);
        assert forall|y: IdV| #[trigger] o.contains(y) <==> c.contains(y) && y != id by {
            lemma_remove_member(c, k, y, lt);
        }
    }
}

proof fn lemma_remove_sorted(c: Seq<IdV>, k: int, lt: spec_fn(IdV, IdV) -> bool)
    requires
        strictly_sorted(c, lt),
        0 <= k < c.len(),
    ensures
        strictly_sorted(c.remove(k), lt),
{
    let o = c.remove(k);
    assert forall|a: int, b: int| 0 <= a < b < o.len() implies #[trigger] lt(o[a], o[b]) by {
        let a2 = if a < k { a } else { a + 1 };
        let b2 = if b < k { b } else { b + 1 };
        assert(o[a] == c[a2] && o[b] == c[b2]);
        assert(lt(c[a2], c[b2]));
    }
}

proof fn lemma_remove_member(c: Seq<IdV>, k: int, y: IdV, lt: spec_fn(IdV, IdV) -> bool)
    requires
        strictly_sorted(c, lt),
        forall|x: IdV| !(#[trigger] lt(x, x)),
        0 <= k < c.len(),
    ensures
        c.remove(k).contains(y) <==> c.contains(y) && y != c[k],
{
    let o = c.remove(k);
    if o.contains(y) {
        let a = choose|a: int| 0 <= a < o.len() && o[a] == y;
        let a2 = if a < k { a } else { a + 1 };
        assert(c[a2] == y);
        if y == c[k] {
            if a2 < k {
                assert(lt(c[a2], c[k]));
            } else {
                assert(lt(c[k], c[a2]));
            }
            assert(lt(y, y));
        }
    }
    if c.contains(y) && y != c[k] {
        let a2 = choose|a: int| 0 <= a < c.len() && c[a] == y;
        assert(a2 != k);
        if a2 < k {
            assert(o[a2] == y);
        } else {
            assert(o[a2 - 1] == y);
        }
    }
}

/// A first position of `x` in `c`, given one at `k0`.
proof fn first_hit_seq(c: Seq<IdV>, x: IdV, k0: int) -> (k: int)
    requires
        0 <= k0 < c.len(),
        c[k0] == x,
    ensures
        0 <= k <= k0,
        c[k] == x,
        forall|j: int| 0 <= j < k ==> c[j] != x,
    decreases k0,
{
    if exists|j: int| 0 <= j < k0 && c[j] == x {
        let j = choose|j: int| 0 <= j < k0 && c[j] == x;
        first_hit_seq(c, x, j)
    } else {
        k0
    }
}

/// A node placed at a position among the other children of a parent lands
/// there: when the index written for it comes after the index of the
/// neighbour before that position and before the index of the neighbour
/// after it (as `update_node` promises wherever an index can be found
/// between them), building again lists it at that position among the
/// parent's children.
pub proof fn law_placed_at_position(cs: Seq<ContainerV>, id: IdV, parent: IdV, index: Option<usize>, fi: Seq<u8>)
    requires
        container_ids_distinct(cs),
        containers_below_max(cs),
        !has_container(cs, None),
        forall|i: int| 0 <= i < cs.len() ==> (#[trigger] cs[i]).edges.dom().finite(),
        spec_init(cs) is Built,
        id is Some,
        id != Some(root_key()),
        parent != Some(root_key()),
        spec_init(cs)->Built_0.contains_key(parent),
        spec_init(cs)->Built_0.contains_key(id) ==> edges_below_max(spec_init(cs)->Built_0[id].edges),
        forall|k: nat| #[trigger] ancestor(spec_init(cs)->Built_0, parent, k) != Some(id),
        index_fits(spec_init(cs)->Built_0, id, parent, index, fi),
    ensures
        ({
            let m = spec_init(cs)->Built_0;
            let p = spec_init(cs)->Built_1;
            let cs2 = with_placement(with_pending(cs, p), id, parent, placement_edge(m, id), fi);
            let c2 = spec_init(cs2)->Built_0[parent].children;
            let j = slot(m, id, parent, index);
            0 <= j < c2.len() && c2[j] == id
        }),
{
    let m = spec_init(cs)->Built_0;
    let p = spec_init(cs)->Built_1;
    let cs2 = with_placement(with_pending(cs, p), id, parent, placement_edge(m, id), fi);
    law_placement_moves_node(cs, id, parent, fi);
    let m2 = spec_init(cs2)->Built_0;
    crate::laws::law_built_children_match_parents(cs);
    crate::laws::law_built_children_match_parents(cs2);
    lemma_built_facts(cs);
    let c = m[parent].children;
    assert(c == children_or_empty(m, parent));
    let lt = child_order(m);
    let lt2 = child_order(m2);
    assert forall|x: IdV| !(#[trigger] lt(x, x)) by {
        crate::order::lemma_lex_irreflexive(byte_codes(m[x].fi));
        if crate::node::id_lt(x, x) {
            crate::node::lemma_id_lt_asymmetric(x, x);
        }
    }
    assert(strictly_sorted(c, lt)) by {
        assert forall|a: int, b: int| 0 <= a < b < c.len() implies #[trigger] lt(c[a], c[b]) by {
            assert(child_order(m)(c[a], c[b]));
        }
    }
    lemma_others(c, id, lt);
    let o = others_of(m, id, parent);
    let j = slot(m, id, parent, index);
    // The other children are nodes of `m`, not the root, ordered alike in both trees.
    assert forall|y: IdV| #[trigger] o.contains(y) implies m.contains_key(y) && y is Some && y != id
        && m2[y].fi == m[y].fi by {
        assert(c.contains(y));
        assert(m.contains_key(y) && m[y].parent == Some(parent));
        if y is None {
            assert(m[None::<Seq<char>>].parent is None);
        }
    }
    assert(strictly_sorted(o, lt2)) by {
        assert forall|a: int, b: int| 0 <= a < b < o.len() implies #[trigger] lt2(o[a], o[b]) by {
            assert(lt(o[a], o[b]));
            assert(o.contains(o[a]) && o.contains(o[b]));
        }
    }
    crate::init::lemma_child_order_transitive(m2);
    crate::init::lemma_child_order_transitive(m);
    assert(m2[id].fi == fi);
    assert forall|t: int| 0 <= t < j implies #[trigger] lt2(o[t], id) by {
        assert(o.contains(o[t]) && o.contains(o[j - 1]));
        let l = m[o[j - 1]].fi;
        assert(left_fi(m, id, parent, index) == Some(l));
        assert(lex_lt(byte_codes(l), byte_codes(fi)));
        if t < j - 1 {
            assert(lt(o[t], o[j - 1]));
            if lex_lt(byte_codes(m[o[t]].fi), byte_codes(l)) {
                crate::order::lemma_lex_transitive(byte_codes(m[o[t]].fi), byte_codes(l), byte_codes(fi));
            }
        }
    }
    if j < o.len() {
        assert(o.contains(o[j]));
        assert(right_fi(m, id, parent, index) == Some(m[o[j]].fi));
        assert(lt2(id, o[j]));
    }
    crate::order::lemma_insert_sorted(o, id, j, lt2);
    let t = o.insert(j, id);
    let c2 = m2[parent].children;
    assert(strictly_sorted(c2, lt2)) by {
        assert forall|a: int, b: int| 0 <= a < b < c2.len() implies #[trigger] lt2(c2[a], c2[b]) by {
            assert(child_order(m2)(c2[a], c2[b]));
        }
    }
    assert(t.to_set() =~= c2.to_set()) by {
        assert forall|y: IdV| t.to_set().contains(y) <==> c2.to_set().contains(y) by {
            assert(t.contains(y) <==> y == id || o.contains(y)) by {
                if t.contains(y) {
                    let a = choose|a: int| 0 <= a < t.len() && t[a] == y;
                    if a < j {
                        assert(o[a] == y);
                    } else if a > j {
                        assert(o[a - 1] == y);
                    }
                }
                if y == id {
                    assert(t[j] == id);
                }
                if o.contains(y) {
                    let a = choose|a: int| 0 <= a < o.len() && o[a] == y;
                    if a < j {
                        assert(t[a] == y);
                    } else {
                        assert(t[a + 1] == y);
                    }
                }
            }
            assert(c2.contains(y) <==> m2.contains_key(y) && m2[y].parent == Some(parent));
            assert(c.contains(y) <==> m.contains_key(y) && m[y].parent == Some(parent));
            assert(o.contains(y) <==> c.contains(y) && y != id);
            if y != id && m.contains_key(y) {
                assert(m2.contains_key(y) && m2[y].parent == m[y].parent);
            }
            if m2.contains_key(y) && y != id {
                assert(m.contains_key(y));
            }
            assert(t.to_set().contains(y) == t.contains(y));
            assert(c2.to_set().contains(y) == c2.contains(y));
        }
    }
    crate::init::lemma_child_order_asymmetric(m2, t.to_set());
    crate::order::lemma_sorted_unique(t, c2, lt2);
    assert(t[j] == id);
}

} // verus!
