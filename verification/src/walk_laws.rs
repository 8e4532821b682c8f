//! The whole depth-first walk over a tree: the root first, every node
//! before the nodes below it, siblings in their order.
use vstd::prelude::*;

use crate::iter::{children_or_empty, dfs_next, dfs_walk, dfs_walk_from, lemma_first_index, sibling_above};
use crate::init::{
    ContainerV, child_order, container_ids_distinct, detached_order, has_container, missing_parent,
    parented_nodes, reattach_spec, spec_init, with_children,
};
use crate::laws::{
    lemma_ancestor_compose, lemma_detached_order, law_built_children_match_parents,
    law_built_tree_is_rooted,
};
use crate::node::lemma_id_lt_asymmetric;
use crate::order::{byte_codes, lemma_lex_irreflexive};
use crate::model::{
    IdV, NodeV, ancestor, lemma_ancestor_none, reaches, lemma_ancestor_shift, lemma_chain_repeats,
    parent_in,
};

verus! {

/// The links of a tree: the root is a node without a parent; every child
/// that a node lists is a node whose parent it is; no node lists a child
/// twice; and the parent links of every node lead to the root.
pub open spec fn tree_links(m: Map<IdV, NodeV>) -> bool {
    &&& m.dom().finite()
    &&& m.contains_key(None)
    &&& m[None].parent is None
    &&& forall|p: IdV, i: int|
        #![trigger m[p].children[i]]
        m.contains_key(p) && 0 <= i < m[p].children.len() ==> m.contains_key(m[p].children[i])
            && m[m[p].children[i]].parent == Some(p)
    &&& forall|p: IdV, i: int, j: int|
        #![trigger m[p].children[i], m[p].children[j]]
        m.contains_key(p) && 0 <= i < j < m[p].children.len() ==> m[p].children[i]
            != m[p].children[j]
    &&& forall|x: IdV| #[trigger]
        m.contains_key(x) ==> exists|k: nat| ancestor(m, x, k) == Some(None::<Seq<char>>)
}

/// A tree: its links are those of a tree (see `tree_links`), and every node
/// with a parent is among that parent's children.
pub open spec fn tree_shaped(m: Map<IdV, NodeV>) -> bool {
    &&& tree_links(m)
    &&& forall|x: IdV|
        #![trigger m[x].parent]
        m.contains_key(x) && m[x].parent is Some ==> m.contains_key(m[x].parent->0)
            && m[m[x].parent->0].children.contains(x)
}

/// `x` is `c` or lies below it.
pub open spec fn below(m: Map<IdV, NodeV>, x: IdV, c: IdV) -> bool {
    exists|k: nat| ancestor(m, x, k) == Some(c)
}

/// `x` is, or lies below, one of the children of `p` from position `from`
/// on.
pub open spec fn below_children(m: Map<IdV, NodeV>, x: IdV, p: IdV, from: int) -> bool {
    exists|i: int| from <= i < m[p].children.len() && #[trigger] below(m, x, m[p].children[i])
}

/// The subtrees of the nodes `cs`, one after another, each node followed by
/// the nodes below it, at most `fuel` levels deep.
pub open spec fn forest(m: Map<IdV, NodeV>, cs: Seq<IdV>, fuel: nat) -> Seq<IdV>
    decreases fuel, cs.len(),
{
    if cs.len() == 0 || fuel == 0 {
        Seq::empty()
    } else {
        seq![cs[0]] + forest(m, children_or_empty(m, cs[0]), (fuel - 1) as nat) + forest(
            m,
            cs.drop_first(),
            fuel,
        )
    }
}

/// The tree in preorder: the root, then the subtrees of its children in
/// their order.
pub open spec fn preorder(m: Map<IdV, NodeV>) -> Seq<IdV> {
    seq![None] + forest(m, children_or_empty(m, None), m.len())
}

/// In a tree, a chain that reaches the root in `k` steps has no more steps
/// than there are nodes.
pub(crate) proof fn lemma_depth_bound(m: Map<IdV, NodeV>, x: IdV, k: nat)
    requires
        tree_links(m),
        ancestor(m, x, k) == Some(None::<Seq<char>>),
    ensures
        k <= m.len(),
{
    let n = m.len();
    if k > n {
        assert forall|j: int| 1 <= j <= n + 1 implies #[trigger] ancestor(m, x, j as nat) is Some
            && m.dom().contains(ancestor(m, x, j as nat).unwrap()) by {
            if j < k {
                if ancestor(m, x, (j + 1) as nat) is None {
                    lemma_ancestor_none(m, x, (j + 1) as nat, k);
                }
                assert(ancestor(m, x, (j + 1) as nat) == match ancestor(m, x, j as nat) {
                    Some(y) => parent_in(m, y),
                    None => None,
                });
            }
        }
        let (a, b) = lemma_chain_repeats(m, x, n);
        lemma_ancestor_shift(m, x, a, b, (k - b) as nat);
        let e = (a + (k - b)) as nat;
        assert(ancestor(m, x, e) == Some(None::<Seq<char>>));
        assert(ancestor(m, x, e + 1) == parent_in(m, None));
        lemma_ancestor_none(m, x, e + 1, k);
    }
}

/// Climbing towards `s` from a node whose chain reaches `s` in `e` steps
/// gives the same answer with any fuel of at least `e`.
proof fn lemma_climb_fuel(m: Map<IdV, NodeV>, s: IdV, x: IdV, e: nat, f1: nat, f2: nat)
    requires
        ancestor(m, x, e) == Some(s),
        f1 >= e,
        f2 >= e,
    ensures
        sibling_above(m, s, x, f1) == sibling_above(m, s, x, f2),
    decreases e,
{
    assert(ancestor(m, x, 0) == Some(x));
    if x != s {
        if let Some(p) = parent_in(m, x) {
            assert(ancestor(m, x, 1) == Some(p));
            lemma_ancestor_compose(m, x, 1, (e - 1) as nat, p);
            assert(1 + (e - 1) as nat == e);
            lemma_climb_fuel(m, s, p, (e - 1) as nat, (f1 - 1) as nat, (f2 - 1) as nat);
        }
    }
}

/// A child of `p` at depth `d + 1`: its chain reaches the root, and it is a
/// node that is not the root.
proof fn lemma_child_depth(m: Map<IdV, NodeV>, p: IdV, d: nat, i: int)
    requires
        tree_links(m),
        m.contains_key(p),
        ancestor(m, p, d) == Some(None::<Seq<char>>),
        0 <= i < m[p].children.len(),
    ensures
        m.contains_key(m[p].children[i]),
        m[m[p].children[i]].parent == Some(p),
        m[p].children[i] != None::<Seq<char>>,
        ancestor(m, m[p].children[i], d + 1) == Some(None::<Seq<char>>),
        d + 1 <= m.len(),
{
    let c = m[p].children[i];
    assert(m.contains_key(c) && m[c].parent == Some(p));
    assert(ancestor(m, c, 0) == Some(c));
    assert(ancestor(m, c, 1) == Some(p));
    lemma_ancestor_compose(m, c, 1, d, p);
    assert(1 + d == d + 1);
    lemma_depth_bound(m, c, d + 1);
}

/// Climbing towards `s` from the child of `p` at `from`, where `p` lies `e`
/// steps below `s`, gives its next sibling, or, for the last child, what
/// climbing from `p` gives.
proof fn lemma_exit_of_child(m: Map<IdV, NodeV>, s: IdV, p: IdV, d: nat, e: nat, from: int)
    requires
        tree_links(m),
        m.contains_key(p),
        ancestor(m, p, d) == Some(None::<Seq<char>>),
        ancestor(m, p, e) == Some(s),
        0 <= from < m[p].children.len(),
    ensures
        sibling_above(m, s, m[p].children[from], m.len()) == (if from + 1
            < m[p].children.len() {
            Some(m[p].children[from + 1])
        } else {
            sibling_above(m, s, p, m.len())
        }),
{
    let cs = m[p].children;
    let c = cs[from];
    let n = m.len();
    lemma_child_depth(m, p, d, from);
    assert forall|j: int| 0 <= j < from implies cs[j] != c by {
        assert(m[p].children[j] != m[p].children[from]);
    }
    lemma_first_index(cs, c, from);
    assert(cs.contains(c));
    assert(parent_in(m, c) == Some(p));
    assert(ancestor(m, c, 0) == Some(c));
    assert(ancestor(m, c, 1) == Some(p));
    lemma_ancestor_compose(m, c, 1, e, p);
    assert(1 + e == e + 1);
    lemma_no_cycle(m, c, 0, e + 1);
    assert(c != s);
    if e > d {
        lemma_chain_step(m, p, d, None::<Seq<char>>);
        lemma_ancestor_none(m, p, d + 1, e);
    }
    if from + 1 >= cs.len() {
        lemma_climb_fuel(m, s, p, e, (n - 1) as nat, n);
    }
}

/// Within the subtrees of the children of `p` from `from` on, where `p`
/// lies `e` steps below `s`, each node is followed in a depth-first walk
/// from `s` by the next one, and the last by what climbing from `p` gives.
proof fn lemma_forest_walk(
    m: Map<IdV, NodeV>,
    s: IdV,
    p: IdV,
    d: nat,
    e: nat,
    from: int,
    fuel: nat,
)
    requires
        tree_links(m),
        m.contains_key(p),
        ancestor(m, p, d) == Some(None::<Seq<char>>),
        ancestor(m, p, e) == Some(s),
        fuel + d >= m.len(),
        0 <= from <= m[p].children.len(),
    ensures
        ({
            let f = forest(m, m[p].children.skip(from), fuel);
            &&& from < m[p].children.len() ==> f.len() > 0 && f[0] == m[p].children[from]
            &&& forall|j: int|
                0 <= j < f.len() ==> dfs_next(m, s, Some(#[trigger] f[j])) == (if j + 1
                    < f.len() {
                    Some(f[j + 1])
                } else {
                    sibling_above(m, s, p, m.len())
                })
        }),
    decreases fuel, m[p].children.len() - from,
{
    let cs = m[p].children;
    let n = m.len();
    let rest = cs.skip(from);
    if from < cs.len() {
        let c = cs[from];
        lemma_child_depth(m, p, d, from);
        assert(fuel > 0);
        assert(rest.len() > 0 && rest[0] == c);
        assert(rest.drop_first() =~= cs.skip(from + 1));
        assert(children_or_empty(m, c) == m[c].children);
        assert(m[c].children.skip(0) =~= m[c].children);
        let g = forest(m, m[c].children, (fuel - 1) as nat);
        let h = forest(m, cs.skip(from + 1), fuel);
        let f = forest(m, rest, fuel);
        assert(f == seq![c] + g + h);
        assert(ancestor(m, c, 0) == Some(c));
        assert(ancestor(m, c, 1) == Some(p));
        lemma_ancestor_compose(m, c, 1, e, p);
        assert(1 + e == e + 1);
        lemma_forest_walk(m, s, c, d + 1, e + 1, 0, (fuel - 1) as nat);
        lemma_forest_walk(m, s, p, d, e, from + 1, fuel);
        lemma_exit_of_child(m, s, p, d, e, from);
        if m[c].children.len() > 0 {
            lemma_child_depth(m, c, d + 1, 0);
            assert(g.len() > 0 && g[0] == m[c].children[0]);
        } else {
            assert(g.len() == 0);
        }
        if from + 1 < cs.len() {
            assert(h.len() > 0 && h[0] == cs[from + 1]);
        } else {
            assert(cs.skip(from + 1).len() == 0);
            assert(h.len() == 0);
        }
        assert forall|j: int| 0 <= j < f.len() implies dfs_next(m, s, Some(#[trigger] f[j]))
            == (if j + 1 < f.len() {
            Some(f[j + 1])
        } else {
            sibling_above(m, s, p, n)
        }) by {
            if j == 0 {
                assert(f[0] == c);
                if m[c].children.len() > 0 {
                    assert(f[1] == g[0]);
                } else if from + 1 < cs.len() {
                    assert(f[1] == h[0]);
                }
            } else if j < 1 + g.len() {
                assert(f[j] == g[j - 1]);
                if j < g.len() {
                    assert(f[j + 1] == g[j]);
                } else if from + 1 < cs.len() {
                    assert(f[j + 1] == h[0]);
                }
            } else {
                let k = j - 1 - g.len();
                assert(f[j] == h[k]);
                if j + 1 < f.len() {
                    assert(f[j + 1] == h[k + 1]);
                }
            }
        }
    } else {
        assert(rest.len() == 0);
    }
}

/// In a tree, the chain above a node never comes back to a node it passed.
proof fn lemma_no_cycle(m: Map<IdV, NodeV>, x: IdV, a: nat, b: nat)
    requires
        tree_links(m),
        m.contains_key(x),
        a < b,
        ancestor(m, x, a) is Some,
    ensures
        ancestor(m, x, a) != ancestor(m, x, b),
{
    if ancestor(m, x, a) == ancestor(m, x, b) {
        let k = choose|k: nat| ancestor(m, x, k) == Some(None::<Seq<char>>);
        assert(ancestor(m, x, k + 1) == parent_in(m, None));
        if a <= k {
            lemma_ancestor_shift(m, x, a, b, (k - a) as nat);
            assert(ancestor(m, x, (b + (k - a)) as nat) == Some(None::<Seq<char>>));
            lemma_ancestor_none(m, x, k + 1, (b + (k - a)) as nat);
        } else {
            lemma_ancestor_none(m, x, k + 1, a);
        }
    }
}

/// One step further up the chain above `x`.
pub(crate) proof fn lemma_chain_step(m: Map<IdV, NodeV>, x: IdV, k: nat, y: IdV)
    requires
        ancestor(m, x, k) == Some(y),
    ensures
        ancestor(m, x, k + 1) == parent_in(m, y),
{
}

/// `f` holds every node below one of the children of `p` from position
/// `from` on, and nothing else, each once.
#[verifier::opaque]
spec fn members_ok(m: Map<IdV, NodeV>, f: Seq<IdV>, p: IdV, from: int) -> bool {
    &&& forall|x: IdV| #[trigger] f.contains(x) ==> m.contains_key(x) && below_children(m, x, p, from)
    &&& forall|x: IdV| m.contains_key(x) && #[trigger] below_children(m, x, p, from) ==> f.contains(x)
    &&& forall|i: int, j: int| 0 <= i < j < f.len() ==> f[i] != f[j]
}

/// What lies in the subtrees of the children of `c` lies strictly below `c`.
proof fn lemma_under_child(m: Map<IdV, NodeV>, c: IdV, g: Seq<IdV>)
    requires
        tree_shaped(m),
        m.contains_key(c),
        members_ok(m, g, c, 0),
    ensures
        forall|x: IdV| #[trigger] g.contains(x) ==> exists|k: nat|
            1 <= k && ancestor(m, x, k) == Some(c),
{
    reveal(members_ok);
    assert forall|x: IdV| #[trigger] g.contains(x) implies exists|k: nat|
        1 <= k && ancestor(m, x, k) == Some(c) by {
        assert(below_children(m, x, c, 0));
        let j = choose|j: int| 0 <= j < m[c].children.len() && #[trigger] below(m, x, m[c].children[j]);
        let y = m[c].children[j];
        let k = choose|k: nat| ancestor(m, x, k) == Some(y);
        assert(m[y].parent == Some(c));
        lemma_chain_step(m, x, k, y);
        assert(ancestor(m, x, k + 1) == Some(c));
    }
}

/// What lies in the subtrees of the later children of `p` lies below a
/// child of `p` other than the one at `from`.
proof fn lemma_under_later(m: Map<IdV, NodeV>, p: IdV, from: int, h: Seq<IdV>)
    requires
        tree_shaped(m),
        m.contains_key(p),
        0 <= from < m[p].children.len(),
        members_ok(m, h, p, from + 1),
    ensures
        forall|x: IdV| #[trigger] h.contains(x) ==> exists|k: nat|
            #[trigger] ancestor(m, x, k) matches Some(y) && y != m[p].children[from] && parent_in(m, y)
                == Some(p),
        forall|x: IdV| #[trigger] h.contains(x) ==> below_children(m, x, p, from),
{
    reveal(members_ok);
    let cs = m[p].children;
    assert forall|x: IdV| #[trigger] h.contains(x) implies (exists|k: nat|
        #[trigger] ancestor(m, x, k) matches Some(y) && y != cs[from] && parent_in(m, y) == Some(p))
        && below_children(m, x, p, from) by {
        assert(below_children(m, x, p, from + 1));
        let i = choose|i: int| from + 1 <= i < cs.len() && #[trigger] below(m, x, m[p].children[i]);
        let y = cs[i];
        let k = choose|k: nat| ancestor(m, x, k) == Some(y);
        assert(m[y].parent == Some(p));
        assert(cs[from] != cs[i]);
        assert(below(m, x, m[p].children[i]));
    }
}

/// The subtrees of the children of `p` from `from` on, split at the first
/// of them.
proof fn lemma_members_step(m: Map<IdV, NodeV>, p: IdV, d: nat, from: int, g: Seq<IdV>, h: Seq<IdV>)
    requires
        tree_shaped(m),
        m.contains_key(p),
        ancestor(m, p, d) == Some(None::<Seq<char>>),
        0 <= from < m[p].children.len(),
        members_ok(m, g, m[p].children[from], 0),
        members_ok(m, h, p, from + 1),
    ensures
        members_ok(m, seq![m[p].children[from]] + g + h, p, from),
{
    let cs = m[p].children;
    let c = cs[from];
    let f = seq![c] + g + h;
    lemma_child_depth(m, p, d, from);
    lemma_under_child(m, c, g);
    lemma_under_later(m, p, from, h);
    assert(ancestor(m, c, 0) == Some(c));
    assert(ancestor(m, c, 1) == Some(p));
    lemma_members_cover(m, p, from, g, h);
    assert(forall|x: IdV| #[trigger] f.contains(x) ==> m.contains_key(x) && below_children(m, x, p, from)) by {
        reveal(members_ok);
        assert forall|x: IdV| #[trigger] f.contains(x) implies m.contains_key(x) && below_children(m, x, p, from) by {
            let idx = choose|idx: int| 0 <= idx < f.len() && f[idx] == x;
            if idx == 0 {
                assert(below(m, x, m[p].children[from]));
            } else if idx < 1 + g.len() {
                assert(g[idx - 1] == x);
                assert(g.contains(x));
                let k = choose|k: nat| 1 <= k && ancestor(m, x, k) == Some(c);
                assert(below(m, x, m[p].children[from]));
            } else {
                assert(h[idx - 1 - g.len()] == x);
                assert(h.contains(x));
            }
        }
    }
    assert(forall|i: int, j: int| 0 <= i < j < f.len() ==> f[i] != f[j]) by {
        reveal(members_ok);
        assert forall|a: int, b: int| 0 <= a < b < f.len() implies f[a] != f[b] by {
            if f[a] == f[b] {
                let x = f[a];
                if a == 0 {
                    if b < 1 + g.len() {
                        assert(g[b - 1] == c);
                        assert(g.contains(c));
                        let k = choose|k: nat| 1 <= k && ancestor(m, c, k) == Some(c);
                        lemma_no_cycle(m, c, 0, k);
                    } else {
                        assert(h[b - 1 - g.len()] == c);
                        assert(h.contains(c));
                        let k = choose|k: nat|
                            #[trigger] ancestor(m, c, k) matches Some(y) && y != c && parent_in(m, y)
                                == Some(p);
                        assert(k != 0);
                        lemma_chain_step(m, c, k, ancestor(m, c, k)->0);
                        lemma_no_cycle(m, c, 1, k + 1);
                    }
                } else if a < 1 + g.len() {
                    assert(g[a - 1] == x);
                    assert(g.contains(x));
                    if b < 1 + g.len() {
                        assert(g[b - 1] == x);
                    } else {
                        assert(h[b - 1 - g.len()] == x);
                        assert(h.contains(x));
                        assert(m.contains_key(x));
                        let k1 = choose|k: nat| 1 <= k && ancestor(m, x, k) == Some(c);
                        lemma_chain_step(m, x, k1, c);
                        let k2 = choose|k: nat|
                            #[trigger] ancestor(m, x, k) matches Some(y) && y != c && parent_in(m, y)
                                == Some(p);
                        lemma_chain_step(m, x, k2, ancestor(m, x, k2)->0);
                        if k2 < k1 {
                            lemma_no_cycle(m, x, k2 + 1, k1 + 1);
                        } else if k2 > k1 {
                            lemma_no_cycle(m, x, k1 + 1, k2 + 1);
                        }
                    }
                } else {
                    assert(h[a - 1 - g.len()] == x);
                    assert(h[b - 1 - g.len()] == x);
                }
            }
        }
    }
    reveal(members_ok);
}

/// Every node below a child of `p` from `from` on is in the subtrees of
/// those children.
proof fn lemma_members_cover(m: Map<IdV, NodeV>, p: IdV, from: int, g: Seq<IdV>, h: Seq<IdV>)
    requires
        tree_shaped(m),
        m.contains_key(p),
        0 <= from < m[p].children.len(),
        members_ok(m, g, m[p].children[from], 0),
        members_ok(m, h, p, from + 1),
    ensures
        forall|x: IdV|
            m.contains_key(x) && #[trigger] below_children(m, x, p, from) ==> (seq![
                m[p].children[from],
            ] + g + h).contains(x),
{
    reveal(members_ok);
    let cs = m[p].children;
    let c = cs[from];
    let f = seq![c] + g + h;
    assert forall|x: IdV| m.contains_key(x) && #[trigger] below_children(m, x, p, from) implies f.contains(x) by {
        let i = choose|i: int| from <= i < cs.len() && #[trigger] below(m, x, m[p].children[i]);
        if i > from {
            assert(below_children(m, x, p, from + 1));
            assert(h.contains(x));
            let t = choose|t: int| 0 <= t < h.len() && h[t] == x;
            assert(f[1 + g.len() + t] == x);
        } else {
            let k = choose|k: nat| ancestor(m, x, k) == Some(c);
            if k == 0 {
                assert(ancestor(m, x, 0) == Some(x));
                assert(f[0] == x);
            } else {
                let k1 = (k - 1) as nat;
                if ancestor(m, x, k1) is None {
                    lemma_ancestor_none(m, x, k1, k);
                }
                let y = ancestor(m, x, k1)->0;
                lemma_chain_step(m, x, k1, y);
                assert(k1 + 1 == k);
                assert(parent_in(m, y) == Some(c));
                assert(m.contains_key(y) && m[y].parent == Some(c));
                assert(m[c].children.contains(y));
                let j = choose|j: int| 0 <= j < m[c].children.len() && m[c].children[j] == y;
                assert(below(m, x, m[c].children[j]));
                assert(below_children(m, x, c, 0));
                assert(g.contains(x));
                let t = choose|t: int| 0 <= t < g.len() && g[t] == x;
                assert(f[1 + t] == x);
            }
        }
    }
}

/// The subtrees of the children of `p` from `from` on hold every node below
/// one of those children, and nothing else, each once.
proof fn lemma_forest_members(m: Map<IdV, NodeV>, p: IdV, d: nat, from: int, fuel: nat)
    requires
        tree_shaped(m),
        m.contains_key(p),
        ancestor(m, p, d) == Some(None::<Seq<char>>),
        fuel + d >= m.len(),
        0 <= from <= m[p].children.len(),
    ensures
        members_ok(m, forest(m, m[p].children.skip(from), fuel), p, from),
    decreases fuel, m[p].children.len() - from,
{
    let cs = m[p].children;
    let rest = cs.skip(from);
    if from < cs.len() {
        let c = cs[from];
        lemma_child_depth(m, p, d, from);
        assert(fuel > 0);
        assert(rest.len() > 0 && rest[0] == c);
        assert(rest.drop_first() =~= cs.skip(from + 1));
        assert(children_or_empty(m, c) == m[c].children);
        assert(m[c].children.skip(0) =~= m[c].children);
        let g = forest(m, m[c].children, (fuel - 1) as nat);
        let h = forest(m, cs.skip(from + 1), fuel);
        assert(forest(m, rest, fuel) == seq![c] + g + h);
        lemma_forest_members(m, c, d + 1, 0, (fuel - 1) as nat);
        lemma_forest_members(m, p, d, from + 1, fuel);
        lemma_members_step(m, p, d, from, g, h);
    } else {
        assert(rest.len() == 0);
        reveal(members_ok);
        assert(forest(m, rest, fuel).len() == 0);
    }
}

/// Along a sequence in which each node is followed by the next, the walk
/// gives the sequence and then ends.
proof fn lemma_walk_follows(m: Map<IdV, NodeV>, p: Seq<IdV>, k: nat)
    requires
        p.len() >= 1,
        dfs_next(m, None, None) == Some(p[0]),
        forall|j: int|
            0 <= j < p.len() ==> dfs_next(m, None, Some(#[trigger] p[j])) == (if j + 1 < p.len() {
                Some(p[j + 1])
            } else {
                None
            }),
        k <= p.len(),
    ensures
        dfs_walk(m, k) == (if k < p.len() {
            Some(p[k as int])
        } else {
            None
        }),
    decreases k,
{
    if k > 0 {
        lemma_walk_follows(m, p, (k - 1) as nat);
        assert(p[k - 1] == p[(k - 1) as nat as int]);
    }
}

/// The depth-first walk over a tree gives the tree in preorder: the root,
/// then, child by child in their order, each subtree in preorder; and then
/// it ends. So it gives every node of the tree, each once.
pub proof fn law_depth_first_walk_is_preorder(m: Map<IdV, NodeV>)
    requires
        tree_shaped(m),
    ensures
        preorder(m).len() >= 1,
        forall|k: nat| k < preorder(m).len() ==> #[trigger] dfs_walk(m, k) == Some(preorder(m)[k as int]),
        dfs_walk(m, preorder(m).len()) is None,
        forall|x: IdV| #[trigger] preorder(m).contains(x) <==> m.contains_key(x),
        forall|i: int, j: int| 0 <= i < j < preorder(m).len() ==> preorder(m)[i] != preorder(m)[j],
{
    lemma_walk_is_preorder(m);
    lemma_preorder_members(m);
}

/// Every node of a tree is in its preorder, once.
proof fn lemma_preorder_members(m: Map<IdV, NodeV>)
    requires
        tree_shaped(m),
    ensures
        forall|x: IdV| #[trigger] preorder(m).contains(x) <==> m.contains_key(x),
        forall|i: int, j: int| 0 <= i < j < preorder(m).len() ==> preorder(m)[i] != preorder(m)[j],
{
    let n = m.len();
    let root = None::<Seq<char>>;
    vstd::set::axiom_set_contains_len(m.dom(), root);
    assert(ancestor(m, root, 0) == Some(root));
    assert(m[root].children.skip(0) =~= m[root].children);
    assert(children_or_empty(m, root) == m[root].children);
    lemma_forest_members(m, root, 0, 0, n);
    reveal(members_ok);
    let f = forest(m, m[root].children, n);
    let p = preorder(m);
    assert(p == seq![root] + f);
    assert(!f.contains(root)) by {
        if f.contains(root) {
            assert(below_children(m, root, root, 0));
            let i = choose|i: int|
                0 <= i < m[root].children.len() && #[trigger] below(m, root, m[root].children[i]);
            let c = m[root].children[i];
            let k = choose|k: nat| ancestor(m, root, k) == Some(c);
            assert(m[c].parent == Some(root));
            if k == 0 {
                assert(ancestor(m, root, 0) == Some(root));
            } else {
                lemma_chain_step(m, root, 0, root);
                lemma_ancestor_none(m, root, 1, k);
            }
        }
    }
    assert forall|x: IdV| #[trigger] p.contains(x) <==> m.contains_key(x) by {
        if p.contains(x) {
            let t = choose|t: int| 0 <= t < p.len() && p[t] == x;
            if t > 0 {
                assert(f[t - 1] == x);
                assert(f.contains(x));
            }
        }
        if m.contains_key(x) {
            if x == root {
                assert(p[0] == x);
            } else {
                let k = choose|k: nat| ancestor(m, x, k) == Some(None::<Seq<char>>);
                assert(ancestor(m, x, 0) == Some(x));
                assert(k >= 1);
                let k1 = (k - 1) as nat;
                if ancestor(m, x, k1) is None {
                    lemma_ancestor_none(m, x, k1, k);
                }
                let y = ancestor(m, x, k1)->0;
                lemma_chain_step(m, x, k1, y);
                assert(k1 + 1 == k);
                assert(m.contains_key(y) && m[y].parent == Some(root));
                assert(m[root].children.contains(y));
                let j = choose|j: int| 0 <= j < m[root].children.len() && m[root].children[j] == y;
                assert(below(m, x, m[root].children[j]));
                assert(below_children(m, x, root, 0));
                assert(f.contains(x));
                let t = choose|t: int| 0 <= t < f.len() && f[t] == x;
                assert(p[t + 1] == x);
            }
        }
    }
    assert forall|i: int, j: int| 0 <= i < j < p.len() implies p[i] != p[j] by {
        if i == 0 {
            assert(p[j] == f[j - 1]);
        } else {
            assert(p[i] == f[i - 1]);
            assert(p[j] == f[j - 1]);
        }
    }
}

/// The walk follows the preorder and then ends.
proof fn lemma_walk_is_preorder(m: Map<IdV, NodeV>)
    requires
        tree_links(m),
    ensures
        preorder(m).len() >= 1,
        forall|k: nat| k < preorder(m).len() ==> #[trigger] dfs_walk(m, k) == Some(preorder(m)[k as int]),
        dfs_walk(m, preorder(m).len()) is None,
{
    let n = m.len();
    let root = None::<Seq<char>>;
    assert(m.dom().contains(root));
    vstd::set::axiom_set_contains_len(m.dom(), root);
    assert(ancestor(m, root, 0) == Some(root));
    assert(m[root].children.skip(0) =~= m[root].children);
    assert(children_or_empty(m, root) == m[root].children);
    lemma_forest_walk(m, root, root, 0, 0, 0, n);
    let f = forest(m, m[root].children, n);
    let p = preorder(m);
    assert(p == seq![root] + f);
    if m[root].children.len() == 0 {
        assert(f.len() == 0);
    }
    assert forall|j: int| 0 <= j < p.len() implies dfs_next(m, None, Some(#[trigger] p[j])) == (if j
        + 1 < p.len() {
        Some(p[j + 1])
    } else {
        None
    }) by {
        assert(sibling_above(m, None, root, n) is None);
        if j == 0 {
            assert(p[0] == root);
            if m[root].children.len() > 0 {
                assert(p[1] == f[0]);
            }
        } else {
            assert(p[j] == f[j - 1]);
            if j + 1 < p.len() {
                assert(p[j + 1] == f[j]);
            }
        }
    }
    assert(dfs_next(m, None, None) == Some(p[0]));
    assert forall|k: nat| k < p.len() implies #[trigger] dfs_walk(m, k) == Some(p[k as int]) by {
        lemma_walk_follows(m, p, k);
    }
    lemma_walk_follows(m, p, p.len());
}


/// Every tree that building gives is tree-shaped (see `tree_shaped`) and
/// holds the root and one node per container, when the document has no
/// container for the root; so a depth-first walk over it gives it in
/// preorder (see `law_depth_first_walk_is_preorder`).
pub proof fn law_built_tree_is_tree_shaped(cs: Seq<ContainerV>)
    requires
        container_ids_distinct(cs),
        !has_container(cs, None),
        spec_init(cs) is Built,
    ensures
        tree_shaped(spec_init(cs)->Built_0),
        forall|x: IdV| #[trigger]
            spec_init(cs)->Built_0.contains_key(x) <==> (x is None || has_container(cs, x)),
{
    law_built_tree_is_rooted(cs);
    law_built_children_match_parents(cs);
    let m = spec_init(cs)->Built_0;
    let m1 = parented_nodes(cs);
    crate::laws::lemma_parented_dom_finite(cs);
    lemma_detached_order(m1);
    crate::init::lemma_reattach_shape(m1, detached_order(m1), 0);
    let (m2, p) = reattach_spec(m1, detached_order(m1), 0)->Ok_0;
    assert(m == with_children(m2));
    assert forall|x: IdV| #[trigger] m.contains_key(x) <==> (x is None || has_container(cs, x)) by {
        assert(m.contains_key(x) == m1.contains_key(x));
    }
    assert forall|q: IdV, i: int| m.contains_key(q) && 0 <= i < m[q].children.len() implies m.contains_key(
        #[trigger] m[q].children[i],
    ) && m[m[q].children[i]].parent == Some(q) by {
        assert(m[q].children.contains(m[q].children[i]));
    }
    assert forall|q: IdV, i: int, j: int|
        m.contains_key(q) && 0 <= i < j < m[q].children.len() implies #[trigger] m[q].children[i]
        != #[trigger] m[q].children[j] by {
        let a = m[q].children[i];
        if a == m[q].children[j] {
            assert(child_order(m)(a, a));
            lemma_lex_irreflexive(byte_codes(m[a].fi));
            lemma_id_lt_asymmetric(a, a);
        }
    }
    assert forall|x: IdV| #[trigger] m.contains_key(x) implies exists|k: nat|
        ancestor(m, x, k) == Some(None::<Seq<char>>) by {
        assert(reaches(m, x, None));
        if parent_in(m, x) is None {
            assert(ancestor(m, x, 0) == Some(x));
        }
    }
    assert forall|x: IdV| m.contains_key(x) && #[trigger] m[x].parent is Some implies m.contains_key(
        m[x].parent->0,
    ) && m[m[x].parent->0].children.contains(x) by {
        let q = m[x].parent->0;
        assert(m2.contains_key(x) && m2[x].parent == Some(q));
        if !m2.contains_key(q) {
            assert(missing_parent(m2, q));
        }
        assert(m.contains_key(q));
    }
}


/// The subtree of `s` in preorder: `s`, then the subtrees of its children
/// in their order.
pub open spec fn subtree_preorder(m: Map<IdV, NodeV>, s: IdV) -> Seq<IdV> {
    seq![s] + forest(m, children_or_empty(m, s), m.len())
}

/// Along a sequence in which each node is followed by the next, the walk
/// from `s` gives the sequence and then ends.
proof fn lemma_walk_from_follows(m: Map<IdV, NodeV>, s: IdV, p: Seq<IdV>, k: nat)
    requires
        p.len() >= 1,
        dfs_next(m, s, None) == Some(p[0]),
        forall|j: int|
            0 <= j < p.len() ==> dfs_next(m, s, Some(#[trigger] p[j])) == (if j + 1 < p.len() {
                Some(p[j + 1])
            } else {
                None
            }),
        k <= p.len(),
    ensures
        dfs_walk_from(m, s, k) == (if k < p.len() {
            Some(p[k as int])
        } else {
            None
        }),
    decreases k,
{
    if k > 0 {
        lemma_walk_from_follows(m, s, p, (k - 1) as nat);
        assert(p[k - 1] == p[(k - 1) as nat as int]);
    }
}

/// A depth-first walk from any node `s` of a tree gives the subtree of `s`
/// in preorder and then ends: `s` first, then child by child in their
/// order each subtree in preorder; so it gives `s` and every node below
/// it, each once, and nothing else.
pub proof fn law_depth_first_walk_from_is_subtree_preorder(m: Map<IdV, NodeV>, s: IdV)
    requires
        tree_shaped(m),
        m.contains_key(s),
    ensures
        forall|k: nat|
            k < subtree_preorder(m, s).len() ==> #[trigger] dfs_walk_from(m, s, k) == Some(
                subtree_preorder(m, s)[k as int],
            ),
        dfs_walk_from(m, s, subtree_preorder(m, s).len()) is None,
        forall|x: IdV| #[trigger]
            subtree_preorder(m, s).contains(x) <==> (m.contains_key(x) && below(m, x, s)),
        forall|i: int, j: int|
            0 <= i < j < subtree_preorder(m, s).len() ==> subtree_preorder(m, s)[i]
                != subtree_preorder(m, s)[j],
{
    let n = m.len();
    let d = choose|d: nat| ancestor(m, s, d) == Some(None::<Seq<char>>);
    assert(ancestor(m, s, 0) == Some(s));
    assert(m[s].children.skip(0) =~= m[s].children);
    assert(children_or_empty(m, s) == m[s].children);
    lemma_forest_walk(m, s, s, d, 0, 0, n);
    lemma_forest_members(m, s, d, 0, n);
    let f = forest(m, m[s].children, n);
    let p = subtree_preorder(m, s);
    assert(p == seq![s] + f);
    if m[s].children.len() == 0 {
        assert(f.len() == 0);
    }
    assert forall|j: int| 0 <= j < p.len() implies dfs_next(m, s, Some(#[trigger] p[j])) == (if j + 1
        < p.len() {
        Some(p[j + 1])
    } else {
        None
    }) by {
        assert(sibling_above(m, s, s, n) is None);
        if j == 0 {
            assert(p[0] == s);
            if m[s].children.len() > 0 {
                assert(p[1] == f[0]);
            }
        } else {
            assert(p[j] == f[j - 1]);
            if j + 1 < p.len() {
                assert(p[j + 1] == f[j]);
            }
        }
    }
    assert(dfs_next(m, s, None) == Some(p[0]));
    assert forall|k: nat| k < p.len() implies #[trigger] dfs_walk_from(m, s, k) == Some(p[k as int]) by {
        lemma_walk_from_follows(m, s, p, k);
    }
    lemma_walk_from_follows(m, s, p, p.len());
    reveal(members_ok);
    assert(!f.contains(s)) by {
        if f.contains(s) {
            assert(below_children(m, s, s, 0));
            let i = choose|i: int| 0 <= i < m[s].children.len() && #[trigger] below(m, s, m[s].children[i]);
            let c = m[s].children[i];
            let k = choose|k: nat| ancestor(m, s, k) == Some(c);
            assert(m[c].parent == Some(s));
            lemma_chain_step(m, s, k, c);
            lemma_no_cycle(m, s, 0, k + 1);
        }
    }
    assert forall|x: IdV| #[trigger] p.contains(x) <==> (m.contains_key(x) && below(m, x, s)) by {
        if p.contains(x) {
            let t = choose|t: int| 0 <= t < p.len() && p[t] == x;
            if t == 0 {
                assert(x == s);
            } else {
                assert(f[t - 1] == x);
                assert(f.contains(x));
                assert(below_children(m, x, s, 0));
                let i = choose|i: int| 0 <= i < m[s].children.len() && #[trigger] below(m, x, m[s].children[i]);
                let c = m[s].children[i];
                let k = choose|k: nat| ancestor(m, x, k) == Some(c);
                assert(m[c].parent == Some(s));
                lemma_chain_step(m, x, k, c);
                assert(below(m, x, s));
            }
        }
        if m.contains_key(x) && below(m, x, s) {
            if x == s {
                assert(p[0] == x);
            } else {
                let k = choose|k: nat| ancestor(m, x, k) == Some(s);
                assert(ancestor(m, x, 0) == Some(x));
                assert(k >= 1);
                let k1 = (k - 1) as nat;
                if ancestor(m, x, k1) is None {
                    lemma_ancestor_none(m, x, k1, k);
                }
                let y = ancestor(m, x, k1)->0;
                lemma_chain_step(m, x, k1, y);
                assert(k1 + 1 == k);
                assert(m.contains_key(y) && m[y].parent == Some(s));
                assert(m[s].children.contains(y));
                let j = choose|j: int| 0 <= j < m[s].children.len() && m[s].children[j] == y;
                assert(below(m, x, m[s].children[j]));
                assert(below_children(m, x, s, 0));
                assert(f.contains(x));
                let t = choose|t: int| 0 <= t < f.len() && f[t] == x;
                assert(p[t + 1] == x);
            }
        }
    }
    assert forall|i: int, j: int| 0 <= i < j < p.len() implies p[i] != p[j] by {
        if i == 0 {
            assert(p[j] == f[j - 1]);
            assert(f.contains(f[j - 1]));
        } else {
            assert(p[i] == f[i - 1]);
            assert(p[j] == f[j - 1]);
        }
    }
}

} // verus!
