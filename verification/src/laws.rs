//! What holds of every tree the library builds.
use vstd::prelude::*;

use crate::init::{
    ContainerV, child_order, children_of, container_ids_distinct, detached,
    detached_order, free_key, has_container, id_order, is_best_free_key, max_value,
    missing_parent, parented_nodes, reattach_spec, spec_init, with_children,
};
use crate::model::{IdV, NodeV, ancestor, parent_in, reaches};

verus! {

/// The first `k` nodes of the chain above `y` (steps `0..k`) exist and are
/// not in `avoid`.
pub open spec fn chain_avoids(m: Map<IdV, NodeV>, y: IdV, k: nat, avoid: Set<IdV>) -> bool {
    forall|j: nat| j < k ==> #[trigger] ancestor(m, y, j) is Some && !avoid.contains(ancestor(m, y, j)->0)
}

/// The chain above `y` ends at a parent that is not a node, without passing
/// through `avoid`.
pub open spec fn ends_missing(m: Map<IdV, NodeV>, y: IdV, avoid: Set<IdV>) -> bool {
    exists|k: nat|
        k >= 1 && (#[trigger] ancestor(m, y, k)) is Some && !m.contains_key(ancestor(m, y, k)->0)
            && chain_avoids(m, y, k, avoid)
}

/// Following the chain above `y` for `j` steps to `x`, then `n` more.
pub proof fn lemma_ancestor_compose(m: Map<IdV, NodeV>, y: IdV, j: nat, n: nat, x: IdV)
    requires
        ancestor(m, y, j) == Some(x),
    ensures
        ancestor(m, y, j + n) == ancestor(m, x, n),
    decreases n,
{
    if n > 0 {
        lemma_ancestor_compose(m, y, j, (n - 1) as nat, x);
        assert(ancestor(m, y, j + n) == match ancestor(m, y, (j + n - 1) as nat) {
            Some(z) => parent_in(m, z),
            None => None,
        });
    }
}

/// A node on the chain from a node that reaches the root reaches it too.
proof fn lemma_on_reaching_chain(m: Map<IdV, NodeV>, y: IdV, k: nat, j: nat)
    requires
        ancestor(m, y, k) == Some(None::<Seq<char>>),
        j < k,
        ancestor(m, y, j) is Some,
    ensures
        reaches(m, ancestor(m, y, j)->0, None),
{
    let x = ancestor(m, y, j)->0;
    lemma_ancestor_compose(m, y, j, (k - j) as nat, x);
    assert(ancestor(m, x, (k - j) as nat) == Some(None::<Seq<char>>));
    if parent_in(m, x) is None {
        if x != None::<Seq<char>> {
            assert(ancestor(m, x, 1) == parent_in(m, x));
            crate::model::lemma_ancestor_none(m, x, 1, (k - j) as nat);
        }
    } else {
        assert(k - j >= 1) by {
            if k - j == 0 {
                assert(ancestor(m, x, 0) == Some(x));
            }
        }
    }
}

/// Changing node `x` leaves the first `k` steps of a chain that does not
/// pass through `x` as they were.
proof fn lemma_chain_unchanged(m: Map<IdV, NodeV>, x: IdV, v: NodeV, y: IdV, k: nat)
    requires
        forall|j: nat| j < k ==> #[trigger] ancestor(m, y, j) is Some && ancestor(m, y, j)->0 != x,
    ensures
        forall|j: nat| j <= k ==> #[trigger] ancestor(m.insert(x, v), y, j) == ancestor(m, y, j),
    decreases k,
{
    let m2 = m.insert(x, v);
    if k > 0 {
        lemma_chain_unchanged(m, x, v, y, (k - 1) as nat);
        assert forall|j: nat| j <= k implies #[trigger] ancestor(m2, y, j) == ancestor(m, y, j) by {
            if j == k {
                assert(ancestor(m2, y, (k - 1) as nat) == ancestor(m, y, (k - 1) as nat));
                let z = ancestor(m, y, (k - 1) as nat)->0;
                assert(parent_in(m2, z) == parent_in(m, z));
            }
        }
    }
}

/// The shape that reattaching keeps: every node outside `avoid` reaches the
/// root, or its chain ends at a parent that is not a node without passing
/// through `avoid`.
pub open spec fn settled(m: Map<IdV, NodeV>, avoid: Set<IdV>) -> bool {
    forall|y: IdV| #[trigger]
        m.contains_key(y) && !avoid.contains(y) ==> reaches(m, y, None) || ends_missing(m, y, avoid)
}

/// The root is a node without a parent.
pub open spec fn root_ok(m: Map<IdV, NodeV>) -> bool {
    m.contains_key(None) && m[None].parent is None
}

/// The nodes still to reattach.
pub open spec fn remaining(order: Seq<IdV>, i: int) -> Set<IdV> {
    order.subrange(i, order.len() as int).to_set()
}

proof fn lemma_remaining_step(order: Seq<IdV>, i: int)
    requires
        0 <= i < order.len(),
        order.no_duplicates(),
    ensures
        remaining(order, i) == remaining(order, i + 1).insert(order[i]),
        !remaining(order, i + 1).contains(order[i]),
{
    let a = order.subrange(i, order.len() as int);
    let b = order.subrange(i + 1, order.len() as int);
    assert forall|y: IdV| a.to_set().contains(y) <==> b.to_set().insert(order[i]).contains(y) by {
        if a.contains(y) {
            let t = choose|t: int| 0 <= t < a.len() && a[t] == y;
            if t > 0 {
                assert(b[t - 1] == y);
            }
        }
        if b.contains(y) {
            let t = choose|t: int| 0 <= t < b.len() && b[t] == y;
            assert(a[t + 1] == y);
        }
        if y == order[i] {
            assert(a[0] == y);
        }
    }
    assert(a.to_set() =~= b.to_set().insert(order[i]));
    if b.contains(order[i]) {
        let t = choose|t: int| 0 <= t < b.len() && b[t] == order[i];
        assert(order[i + 1 + t] == order[i]);
    }
}

/// A node that does not reach the root is not on the chain of one that does.
proof fn lemma_reaching_chain_avoids(m: Map<IdV, NodeV>, y: IdV, x: IdV) -> (k: nat)
    requires
        reaches(m, y, None),
        parent_in(m, y) is Some,
        !reaches(m, x, None),
    ensures
        k >= 1,
        ancestor(m, y, k) == Some(None::<Seq<char>>),
        forall|j: nat| j < k ==> #[trigger] ancestor(m, y, j) is Some && ancestor(m, y, j)->0 != x,
{
    let k = choose|k: nat| k >= 1 && ancestor(m, y, k) == Some(None::<Seq<char>>);
    assert forall|j: nat| j < k implies #[trigger] ancestor(m, y, j) is Some && ancestor(m, y, j)->0 != x by {
        if ancestor(m, y, j) is None {
            crate::model::lemma_ancestor_none(m, y, j, k);
        }
        lemma_on_reaching_chain(m, y, k, j);
    }
    k
}

/// Reattaching keeps the tree settled, ends with every node settled, and
/// keeps the root.
proof fn lemma_reattach_settles(m: Map<IdV, NodeV>, order: Seq<IdV>, i: int)
    requires
        0 <= i <= order.len(),
        root_ok(m),
        order.no_duplicates(),
        forall|t: int| 0 <= t < order.len() ==> m.contains_key(#[trigger] order[t]),
        settled(m, remaining(order, i)),
    ensures
        reattach_spec(m, order, i) matches Ok((m2, p)) ==> root_ok(m2) && settled(m2, Set::empty())
            && m2.dom() == m.dom(),
    decreases order.len() - i,
{
    if i == order.len() {
        assert(remaining(order, i) =~= Set::<IdV>::empty());
        assert(reattach_spec(m, order, i) == Ok::<(Map<IdV, NodeV>, Seq<(IdV, IdV, i64)>), IdV>((m, Seq::empty())));
    } else {
        let x = order[i];
        let rem = remaining(order, i);
        let rem1 = remaining(order, i + 1);
        lemma_remaining_step(order, i);
        assert(rem1.subset_of(rem));
        if reaches(m, x, None) {
            assert forall|y: IdV| #[trigger] m.contains_key(y) && !rem1.contains(y) implies reaches(m, y, None)
                || ends_missing(m, y, rem1) by {
                if y != x {
                    assert(!rem.contains(y));
                    if !reaches(m, y, None) {
                        assert(ends_missing(m, y, rem));
                        let k = choose|k: nat|
                            k >= 1 && (#[trigger] ancestor(m, y, k)) is Some && !m.contains_key(
                                ancestor(m, y, k)->0,
                            ) && chain_avoids(m, y, k, rem);
                        assert(chain_avoids(m, y, k, rem1));
                    }
                }
            }
            lemma_reattach_settles(m, order, i + 1);
        } else if exists|k: Seq<char>| is_best_free_key(m[x].edges, order, i, k) {
            let em = m[x].edges;
            let k = choose|k: Seq<char>| is_best_free_key(em, order, i, k);
            let p = crate::node::key_to_id(k);
            let v = (max_value(em) + 1) as i64;
            let nv = NodeV { parent: Some(p), edges: em.insert(k, v), ..m[x] };
            let m2 = m.insert(x, nv);
            assert(x != None::<Seq<char>>);
            assert(m2.dom() =~= m.dom());
            assert(!rem.contains(p)) by {
                assert(free_key(order, i, k));
            }
            assert(ancestor(m2, x, 0) == Some(x));
            assert(parent_in(m2, x) == Some(p));
            assert(ancestor(m2, x, 1) == Some(p));
            assert forall|y: IdV| #[trigger] m2.contains_key(y) && !rem1.contains(y) implies reaches(m2, y, None)
                || ends_missing(m2, y, rem1) by {
                if y == x {
                    if m.contains_key(p) {
                        if reaches(m, p, None) {
                            if parent_in(m, p) is None {
                                assert(p == None::<Seq<char>>);
                                assert(reaches(m2, x, None));
                            } else {
                                let kp = lemma_reaching_chain_avoids(m, p, x);
                                lemma_chain_unchanged(m, x, nv, p, kp);
                                lemma_ancestor_compose(m2, x, 1, kp, p);
                                assert(ancestor(m2, x, 1 + kp) == Some(None::<Seq<char>>));
                            }
                        } else {
                            assert(ends_missing(m, p, rem));
                            let kp = choose|kp: nat|
                                kp >= 1 && (#[trigger] ancestor(m, p, kp)) is Some && !m.contains_key(
                                    ancestor(m, p, kp)->0,
                                ) && chain_avoids(m, p, kp, rem);
                            assert forall|j: nat| j < kp implies #[trigger] ancestor(m, p, j) is Some
                                && ancestor(m, p, j)->0 != x by {
                                assert(chain_avoids(m, p, kp, rem));
                            }
                            lemma_chain_unchanged(m, x, nv, p, kp);
                            lemma_ancestor_compose(m2, x, 1, kp, p);
                            assert(ancestor(m2, x, 1 + kp) == ancestor(m, p, kp));
                            assert forall|j: nat| j < 1 + kp implies #[trigger] ancestor(m2, x, j) is Some
                                && !rem1.contains(ancestor(m2, x, j)->0) by {
                                if j > 0 {
                                    lemma_ancestor_compose(m2, x, 1, (j - 1) as nat, p);
                                    assert(ancestor(m2, p, (j - 1) as nat) == ancestor(m, p, (j - 1) as nat));
                                    assert(chain_avoids(m, p, kp, rem));
                                    assert(ancestor(m, p, (j - 1) as nat) is Some);
                                }
                            }
                            assert(chain_avoids(m2, x, 1 + kp, rem1));
                            let kk: nat = 1 + kp;
                            assert(ancestor(m2, x, kk) is Some);
                            assert(!m2.contains_key(ancestor(m2, x, kk)->0));
                            assert(ends_missing(m2, x, rem1));
                        }
                    } else {
                        assert forall|j: nat| j < 1 implies #[trigger] ancestor(m2, x, j) is Some
                            && !rem1.contains(ancestor(m2, x, j)->0) by {}
                        assert(chain_avoids(m2, x, 1, rem1));
                        assert(!m2.contains_key(ancestor(m2, x, 1)->0));
                        assert(ends_missing(m2, x, rem1));
                    }
                } else {
                    assert(!rem.contains(y));
                    if reaches(m, y, None) {
                        if parent_in(m, y) is None {
                            assert(parent_in(m2, y) is None);
                        } else {
                            let ky = lemma_reaching_chain_avoids(m, y, x);
                            lemma_chain_unchanged(m, x, nv, y, ky);
                            assert(ancestor(m2, y, ky) == Some(None::<Seq<char>>));
                        }
                    } else {
                        assert(ends_missing(m, y, rem));
                        let ky = choose|ky: nat|
                            ky >= 1 && (#[trigger] ancestor(m, y, ky)) is Some && !m.contains_key(
                                ancestor(m, y, ky)->0,
                            ) && chain_avoids(m, y, ky, rem);
                        assert forall|j: nat| j < ky implies #[trigger] ancestor(m, y, j) is Some
                            && ancestor(m, y, j)->0 != x by {
                            assert(chain_avoids(m, y, ky, rem));
                        }
                        lemma_chain_unchanged(m, x, nv, y, ky);
                        assert forall|j: nat| j < ky implies #[trigger] ancestor(m2, y, j) is Some
                            && !rem1.contains(ancestor(m2, y, j)->0) by {
                            assert(chain_avoids(m, y, ky, rem));
                        }
                        assert(chain_avoids(m2, y, ky, rem1));
                        assert(ancestor(m2, y, ky) == ancestor(m, y, ky));
                        assert(!m2.contains_key(ancestor(m2, y, ky)->0));
                        assert(ends_missing(m2, y, rem1));
                    }
                }
            }
            assert forall|t: int| 0 <= t < order.len() implies m2.contains_key(#[trigger] order[t]) by {}
            lemma_reattach_settles(m2, order, i + 1);
        }
    }
}

/// The nodes built from a list of containers are finitely many.
pub proof fn lemma_parented_dom_finite(cs: Seq<ContainerV>)
    ensures
        parented_nodes(cs).dom().finite(),
{
    let ids = cs.map_values(|c: ContainerV| c.id);
    let s = ids.to_set().insert(None);
    assert forall|x: IdV| parented_nodes(cs).dom().contains(x) <==> s.contains(x) by {
        if has_container(cs, x) {
            let i = choose|i: int| 0 <= i < cs.len() && (#[trigger] cs[i]).id == x;
            assert(ids[i] == x);
        }
        if ids.contains(x) {
            let i = choose|i: int| 0 <= i < ids.len() && ids[i] == x;
            assert(cs[i].id == x);
        }
    }
    assert(parented_nodes(cs).dom() =~= s);
    vstd::seq_lib::seq_to_set_is_finite(ids);
}

/// Filling in children changes no parent link.
pub proof fn lemma_with_children_reaches(m: Map<IdV, NodeV>, x: IdV)
    ensures
        reaches(with_children(m), x, None) == reaches(m, x, None),
{
    let w = with_children(m);
    assert forall|y: IdV| parent_in(w, y) == parent_in(m, y) by {}
    assert(parent_in(w, x) == parent_in(m, x));
    if reaches(w, x, None) && parent_in(w, x) is Some {
        let k = choose|k: nat| k >= 1 && ancestor(w, x, k) == Some(None::<Seq<char>>);
        lemma_ancestor_same(w, m, x, k);
    }
    if reaches(m, x, None) && parent_in(m, x) is Some {
        let k = choose|k: nat| k >= 1 && ancestor(m, x, k) == Some(None::<Seq<char>>);
        lemma_ancestor_same(w, m, x, k);
    }
}

proof fn lemma_ancestor_same(a: Map<IdV, NodeV>, b: Map<IdV, NodeV>, x: IdV, k: nat)
    requires
        forall|y: IdV| parent_in(a, y) == parent_in(b, y),
    ensures
        ancestor(a, x, k) == ancestor(b, x, k),
    decreases k,
{
    if k > 0 {
        lemma_ancestor_same(a, b, x, (k - 1) as nat);
    }
}

/// The detached nodes of the built nodes have an order, and it lists each
/// once, all of them nodes.
pub proof fn lemma_detached_order(m1: Map<IdV, NodeV>)
    requires
        m1.dom().finite(),
    ensures
        crate::order::strictly_sorted(detached_order(m1), id_order()),
        detached_order(m1).to_set() == detached(m1),
        detached_order(m1).no_duplicates(),
        forall|t: int| 0 <= t < detached_order(m1).len() ==> m1.contains_key(#[trigger] detached_order(m1)[t]),
{
    let d = detached(m1);
    vstd::set_lib::lemma_len_subset(d, m1.dom());
    crate::init::lemma_id_order_transitive();
    crate::init::lemma_id_order_asymmetric(d);
    assert forall|x: IdV, y: IdV| d.contains(x) && d.contains(y) && x != y implies #[trigger] id_order()(x, y)
        || #[trigger] id_order()(y, x) by {
        crate::node::lemma_id_lt_total(x, y);
    }
    crate::order::lemma_sorted_exists(d, id_order());
    let o = detached_order(m1);
    assert forall|a: int, b: int| 0 <= a < o.len() && 0 <= b < o.len() && a != b implies o[a] != o[b] by {
        if a < b {
            assert(id_order()(o[a], o[b]));
            crate::node::lemma_id_lt_asymmetric(o[a], o[b]);
        } else {
            assert(id_order()(o[b], o[a]));
            crate::node::lemma_id_lt_asymmetric(o[b], o[a]);
        }
    }
    assert forall|t: int| 0 <= t < o.len() implies m1.contains_key(#[trigger] o[t]) by {
        assert(o.to_set().contains(o[t]));
    }
}

/// Every tree that building gives is rooted: when the document has no
/// container for the root, every node reaches the root by parent links, so
/// the tree has no cycle and no detached part.
pub proof fn law_built_tree_is_rooted(cs: Seq<ContainerV>)
    requires
        container_ids_distinct(cs),
        !has_container(cs, None),
        spec_init(cs) is Built,
    ensures
        forall|x: IdV| #[trigger]
            spec_init(cs)->Built_0.contains_key(x) ==> reaches(spec_init(cs)->Built_0, x, None),
        spec_init(cs)->Built_0.dom().finite(),
        spec_init(cs)->Built_0.contains_key(None),
        spec_init(cs)->Built_0[None].parent is None,
{
    let m1 = parented_nodes(cs);
    lemma_parented_dom_finite(cs);
    lemma_detached_order(m1);
    let order = detached_order(m1);
    assert(root_ok(m1));
    assert(remaining(order, 0) == detached(m1)) by {
        assert(order.subrange(0, order.len() as int) =~= order);
    }
    lemma_reattach_settles(m1, order, 0);
    let (m2, p) = reattach_spec(m1, order, 0)->Ok_0;
    assert(spec_init(cs)->Built_0.dom() =~= m2.dom());
    assert forall|x: IdV| #[trigger] spec_init(cs)->Built_0.contains_key(x) implies reaches(
        spec_init(cs)->Built_0,
        x,
        None,
    ) by {
        assert(m2.contains_key(x));
        if !reaches(m2, x, None) {
            assert(ends_missing(m2, x, Set::empty()));
            let k = choose|k: nat|
                k >= 1 && (#[trigger] ancestor(m2, x, k)) is Some && !m2.contains_key(ancestor(m2, x, k)->0)
                    && chain_avoids(m2, x, k, Set::empty());
            let km1 = (k - 1) as nat;
            assert(ancestor(m2, x, km1) is Some);
            let z = ancestor(m2, x, km1)->0;
            let q = ancestor(m2, x, k)->0;
            assert(ancestor(m2, x, k) == parent_in(m2, z));
            assert(m2.contains_key(z) && m2[z].parent == Some(q));
            assert(missing_parent(m2, q));
        }
        lemma_with_children_reaches(m2, x);
    }
}

/// In every tree that building gives, the children of each node are the
/// nodes whose parent it is, each once, in sibling order: by fractional
/// index, then by id.
pub proof fn law_built_children_match_parents(cs: Seq<ContainerV>)
    requires
        container_ids_distinct(cs),
        spec_init(cs) is Built,
    ensures
        forall|x: IdV, y: IdV| #[trigger]
            spec_init(cs)->Built_0.contains_key(x) ==> (#[trigger] spec_init(cs)->Built_0[x].children.contains(y)
                <==> spec_init(cs)->Built_0.contains_key(y) && spec_init(cs)->Built_0[y].parent == Some(x)),
        forall|x: IdV, i: int, j: int|
            spec_init(cs)->Built_0.contains_key(x) && 0 <= i < j < spec_init(cs)->Built_0[x].children.len()
                ==> child_order(spec_init(cs)->Built_0)(
                #[trigger] spec_init(cs)->Built_0[x].children[i],
                #[trigger] spec_init(cs)->Built_0[x].children[j],
            ),
{
    let m1 = parented_nodes(cs);
    lemma_parented_dom_finite(cs);
    lemma_detached_order(m1);
    let order = detached_order(m1);
    crate::init::lemma_reattach_shape(m1, order, 0);
    let (m2, p) = reattach_spec(m1, order, 0)->Ok_0;
    let m = spec_init(cs)->Built_0;
    assert(m == with_children(m2));
    assert forall|x: IdV| #[trigger] m.contains_key(x) implies crate::order::strictly_sorted(
        m[x].children,
        child_order(m2),
    ) && m[x].children.to_set() == children_of(m2, x) by {
        let c = children_of(m2, x);
        assert(c.subset_of(m2.dom()));
        vstd::set_lib::lemma_len_subset(c, m2.dom());
        crate::init::lemma_child_order_transitive(m2);
        crate::init::lemma_child_order_asymmetric(m2, c);
        assert forall|a: IdV, b: IdV| c.contains(a) && c.contains(b) && a != b implies #[trigger] child_order(m2)(a, b)
            || #[trigger] child_order(m2)(b, a) by {
            crate::init::lemma_child_order_total(m2, a, b);
        }
        crate::order::lemma_sorted_exists(c, child_order(m2));
    }
    assert forall|x: IdV, y: IdV| #[trigger] m.contains_key(x) implies (#[trigger] m[x].children.contains(y)
        <==> m.contains_key(y) && m[y].parent == Some(x)) by {
        assert(m[x].children.to_set().contains(y) == m[x].children.contains(y));
    }
    assert forall|x: IdV, i: int, j: int|
        m.contains_key(x) && 0 <= i < j < m[x].children.len() implies child_order(m)(
        #[trigger] m[x].children[i],
        #[trigger] m[x].children[j],
    ) by {
        let a = m[x].children[i];
        let b = m[x].children[j];
        assert(child_order(m2)(a, b));
        assert(m[x].children.to_set().contains(a));
        assert(m[x].children.to_set().contains(b));
        assert(m[a].fi == m2[a].fi);
        assert(m[b].fi == m2[b].fi);
    }
}

/// Building depends only on which containers the document holds, not on
/// the order they are read in: two peers whose documents hold the same
/// containers build the same tree, or both fail in the same way. Only when
/// some container has no edge at all may they name different such
/// containers.
pub proof fn law_build_ignores_container_order(cs1: Seq<ContainerV>, cs2: Seq<ContainerV>)
    requires
        container_ids_distinct(cs1),
        container_ids_distinct(cs2),
        cs1.to_set() == cs2.to_set(),
    ensures
        spec_init(cs1) is NoParentSet <==> spec_init(cs2) is NoParentSet,
        !(spec_init(cs1) is NoParentSet) ==> spec_init(cs2) == spec_init(cs1),
{
    lemma_edgeless_transfers(cs1, cs2);
    lemma_edgeless_transfers(cs2, cs1);
    if !crate::init::some_without_parent(cs1) {
        assert forall|x: IdV| has_container(cs1, x) implies has_container(cs2, x)
            && container_of_eq(cs1, cs2, x) by {
            lemma_same_container(cs1, cs2, x);
        }
        assert forall|x: IdV| has_container(cs2, x) implies has_container(cs1, x) by {
            lemma_same_container(cs2, cs1, x);
        }
        let a = parented_nodes(cs1);
        let b = parented_nodes(cs2);
        assert forall|x: IdV| a.contains_key(x) implies a[x] == b[x] by {
            if has_container(cs1, x) {
                lemma_same_container(cs1, cs2, x);
            }
        }
        assert(a =~= b);
    }
}

/// A container without edges in one list is in the other list too.
proof fn lemma_edgeless_transfers(cs1: Seq<ContainerV>, cs2: Seq<ContainerV>)
    requires
        cs1.to_set() == cs2.to_set(),
    ensures
        crate::init::some_without_parent(cs2) ==> crate::init::some_without_parent(cs1),
{
    if crate::init::some_without_parent(cs2) {
        let i = choose|i: int| 0 <= i < cs2.len() && (#[trigger] cs2[i]).edges.len() == 0;
        assert(cs2.to_set().contains(cs2[i]));
        assert(cs1.contains(cs2[i]));
        let j = choose|j: int| 0 <= j < cs1.len() && cs1[j] == cs2[i];
        assert(cs1[j].edges.len() == 0);
    }
}

/// The containers for `x` in two lists with the same containers.
spec fn container_of_eq(cs1: Seq<ContainerV>, cs2: Seq<ContainerV>, x: IdV) -> bool {
    crate::init::container_of(cs1, x) == crate::init::container_of(cs2, x)
}

proof fn lemma_same_container(cs1: Seq<ContainerV>, cs2: Seq<ContainerV>, x: IdV)
    requires
        container_ids_distinct(cs1),
        container_ids_distinct(cs2),
        cs1.to_set() == cs2.to_set(),
        has_container(cs1, x),
    ensures
        has_container(cs2, x),
        container_of_eq(cs1, cs2, x),
{
    let i = crate::init::container_index(cs1, x);
    assert(cs1.to_set().contains(cs1[i]));
    assert(cs2.contains(cs1[i]));
    let j = choose|j: int| 0 <= j < cs2.len() && cs2[j] == cs1[i];
    assert(has_container(cs2, x));
    let j2 = crate::init::container_index(cs2, x);
    if j2 != j {
        if j2 < j {
            assert(cs2[j2].id != cs2[j].id);
        } else {
            assert(cs2[j].id != cs2[j2].id);
        }
    }
}

} // verus!
