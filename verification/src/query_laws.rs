//! What the queries and walks on a tree give, stated over the shape of the
//! tree: the columns of a drawn line, the siblings of a node, where a move
//! next to a sibling lands, and which nodes the walks visit.
use vstd::prelude::*;

use crate::init::child_order;
use crate::iter::{
    bfs_next, children_or_empty, dfs_next, dfs_walk_from, first_index, lemma_first_index, sibling_above,
};
use crate::laws::lemma_ancestor_compose;
use crate::model::{IdV, NodeV, ancestor, lemma_ancestor_none, parent_in, reaches};
use crate::node::lemma_id_lt_asymmetric;
use crate::ops::{depth_of, relative_target, siblings_of};
use crate::tree_laws::law_depth_steps;
use crate::order::{byte_codes, lemma_lex_asymmetric, lemma_lex_irreflexive, lex_lt};
use crate::render::{columns, is_last_child, line_prefix};
use crate::update::beside_index;
use crate::walk_laws::{below, lemma_chain_step, lemma_depth_bound, tree_links, tree_shaped};

verus! {

/// The column drawn for an ancestor: blank when it is the last child of its
/// parent, a bar when siblings follow it.
pub open spec fn column_for(m: Map<IdV, NodeV>, a: IdV) -> Seq<char> {
    if is_last_child(m, a) {
        "   "@
    } else {
        "│  "@
    }
}

/// The columns left of a node whose chain reaches the root in `k` steps: one
/// per ancestor below the root, the one `k - 1` steps up first.
proof fn lemma_columns_blocks(m: Map<IdV, NodeV>, x: IdV, k: nat, f: nat)
    requires
        m.contains_key(None),
        m[None].parent is None,
        k >= 1,
        ancestor(m, x, k) == Some(None::<Seq<char>>),
        f + 1 >= k,
    ensures
        x is Some,
        columns(m, x, f).len() == 3 * (k - 1),
        forall|j: int|
            0 <= j < k - 1 ==> #[trigger] columns(m, x, f).subrange(3 * j, 3 * j + 3) == column_for(
                m,
                ancestor(m, x, (k - 1 - j) as nat)->0,
            ),
    decreases k,
{
    reveal_strlit("   ");
    reveal_strlit("│  ");
    assert(ancestor(m, x, 0) == Some(x));
    if ancestor(m, x, 1) is None {
        lemma_ancestor_none(m, x, 1, k);
    }
    let p = ancestor(m, x, 1)->0;
    assert(ancestor(m, x, 1) == parent_in(m, x));
    if x is None {
        assert(parent_in(m, x) is None);
    }
    if k >= 2 {
        if p is None {
            lemma_chain_step(m, x, 1, p);
            lemma_ancestor_none(m, x, 2, k);
        }
        let c = columns(m, p, (f - 1) as nat);
        let full = columns(m, x, f);
        assert(full == c + column_for(m, p));
        lemma_ancestor_compose(m, x, 1, (k - 1) as nat, p);
        assert(1 + (k - 1) as nat == k);
        lemma_columns_blocks(m, p, (k - 1) as nat, (f - 1) as nat);
        assert forall|j: int| 0 <= j < k - 1 implies #[trigger] full.subrange(3 * j, 3 * j + 3)
            == column_for(m, ancestor(m, x, (k - 1 - j) as nat)->0) by {
            if j < k - 2 {
                assert(full.subrange(3 * j, 3 * j + 3) =~= c.subrange(3 * j, 3 * j + 3));
                lemma_ancestor_compose(m, x, 1, (k - 2 - j) as nat, p);
                assert(1 + (k - 2 - j) as nat == (k - 1 - j) as nat);
            } else {
                assert(full.subrange(3 * j, 3 * j + 3) =~= column_for(m, p));
            }
        }
    }
}

/// The line of a node whose chain reaches the root in `k` steps starts with
/// `k - 1` columns, outermost ancestor first: the column at position `j`
/// belongs to the ancestor `k - 1 - j` steps up (the one just below the root
/// first, the parent last); then comes the node's own corner, or a tee when
/// siblings follow it.
pub proof fn law_line_prefix_outermost_first(m: Map<IdV, NodeV>, x: IdV, k: nat)
    requires
        tree_links(m),
        k >= 1,
        ancestor(m, x, k) == Some(None::<Seq<char>>),
    ensures
        line_prefix(m, x).len() == 3 * k,
        forall|j: int|
            0 <= j < k - 1 ==> #[trigger] line_prefix(m, x).subrange(3 * j, 3 * j + 3) == column_for(
                m,
                ancestor(m, x, (k - 1 - j) as nat)->0,
            ),
        line_prefix(m, x).subrange(3 * (k - 1), 3 * k as int) == (if is_last_child(m, x) {
            "└──"@
        } else {
            "├──"@
        }),
{
    reveal_strlit("└──");
    reveal_strlit("├──");
    lemma_depth_bound(m, x, k);
    lemma_columns_blocks(m, x, k, m.len());
    let c = columns(m, x, m.len());
    let t: Seq<char> = if is_last_child(m, x) {
        "└──"@
    } else {
        "├──"@
    };
    assert(line_prefix(m, x) == c + t);
    assert forall|j: int| 0 <= j < k - 1 implies #[trigger] line_prefix(m, x).subrange(3 * j, 3 * j + 3)
        == column_for(m, ancestor(m, x, (k - 1 - j) as nat)->0) by {
        assert(line_prefix(m, x).subrange(3 * j, 3 * j + 3) =~= c.subrange(3 * j, 3 * j + 3));
    }
    assert(line_prefix(m, x).subrange(3 * (k - 1), 3 * k as int) =~= t);
}

/// In a tree, the siblings of a node other than the root are exactly the
/// nodes with the same parent, the node itself among them.
pub proof fn law_siblings_share_parent(m: Map<IdV, NodeV>, x: IdV)
    requires
        tree_shaped(m),
        m.contains_key(x),
        x is Some,
    ensures
        siblings_of(m, x).contains(x),
        forall|y: IdV| #[trigger]
            siblings_of(m, x).contains(y) <==> (m.contains_key(y) && m[y].parent == m[x].parent),
        siblings_of(m, x).no_duplicates(),
        children_in_order(m, m[x].parent->0) ==> forall|i: int, j: int|
            0 <= i < j < siblings_of(m, x).len() ==> child_order(m)(
                #[trigger] siblings_of(m, x)[i],
                #[trigger] siblings_of(m, x)[j],
            ),
{
    let k = choose|k: nat| ancestor(m, x, k) == Some(None::<Seq<char>>);
    assert(ancestor(m, x, 0) == Some(x));
    if ancestor(m, x, 1) is None {
        lemma_ancestor_none(m, x, 1, k);
    }
    assert(ancestor(m, x, 1) == parent_in(m, x));
    let p = m[x].parent->0;
    assert(m.contains_key(p) && m[p].children.contains(x));
    let s = siblings_of(m, x);
    assert(s == m[p].children);
    assert forall|i: int, j: int| 0 <= i < s.len() && 0 <= j < s.len() && i != j implies s[i] != s[j] by {
        if i < j {
            assert(m[p].children[i] != m[p].children[j]);
        } else {
            assert(m[p].children[j] != m[p].children[i]);
        }
    }
    assert forall|y: IdV| #[trigger] s.contains(y) <==> (m.contains_key(y) && m[y].parent == m[x].parent) by {
        if s.contains(y) {
            let i = choose|i: int| 0 <= i < s.len() && s[i] == y;
            assert(m.contains_key(m[p].children[i]) && m[m[p].children[i]].parent == Some(p));
        }
        if m.contains_key(y) && m[y].parent == m[x].parent {
            assert(m[y].parent is Some);
        }
    }
}

/// A node other than the root of a tree is drawn as the last child exactly
/// when no sibling comes after it.
pub proof fn law_last_child_has_no_later_sibling(m: Map<IdV, NodeV>, x: IdV)
    requires
        tree_shaped(m),
        m.contains_key(x),
        x is Some,
    ensures
        is_last_child(m, x) <==> forall|y: IdV| #[trigger]
            siblings_of(m, x).contains(y) ==> first_index(siblings_of(m, x), y) <= first_index(
                siblings_of(m, x),
                x,
            ),
{
    law_siblings_share_parent(m, x);
    let sq = siblings_of(m, x);
    let n = sq.len();
    assert(sq.contains(x));
    let ix = choose|i: int| 0 <= i < n && sq[i] == x;
    lemma_first_index(sq, x, ix);
    assert(parent_in(m, x) == m[x].parent);
    assert(m[x].parent is Some) by {
        if m[x].parent is None {
            assert(siblings_of(m, x).len() == 0);
        }
    }
    assert(children_or_empty(m, m[x].parent->0) == sq);
    if is_last_child(m, x) {
        assert(sq.last() == x);
        assert(ix == n - 1) by {
            if ix != n - 1 {
                assert(sq[ix] == sq[n - 1]);
            }
        }
        assert forall|y: IdV| #[trigger] sq.contains(y) implies first_index(sq, y) <= first_index(sq, x) by {
            let iy = choose|i: int| 0 <= i < n && sq[i] == y;
            lemma_first_index(sq, y, iy);
        }
    } else {
        let l = sq[n - 1];
        assert(l != x);
        assert(sq.contains(l));
        lemma_first_index(sq, l, n - 1);
    }
}

/// Children listed in sibling order: each one before the next by index,
/// then by id.
pub open spec fn children_in_order(m: Map<IdV, NodeV>, p: IdV) -> bool {
    &&& m.contains_key(p)
    &&& forall|i: int| 0 <= i < m[p].children.len() ==> m.contains_key(#[trigger] m[p].children[i])
    &&& forall|i: int, j: int|
        0 <= i < j < m[p].children.len() ==> child_order(m)(
            #[trigger] m[p].children[i],
            #[trigger] m[p].children[j],
        )
}

/// Two children in sibling order do not have their indexes the other way
/// round.
proof fn lemma_ordered_not_before(m: Map<IdV, NodeV>, p: IdV, i: int, j: int)
    requires
        children_in_order(m, p),
        0 <= i <= j < m[p].children.len(),
    ensures
        !lex_lt(byte_codes(m[m[p].children[j]].fi), byte_codes(m[m[p].children[i]].fi)),
{
    let a = byte_codes(m[m[p].children[i]].fi);
    let b = byte_codes(m[m[p].children[j]].fi);
    if i == j {
        lemma_lex_irreflexive(a);
    } else {
        assert(child_order(m)(m[p].children[i], m[p].children[j]));
        if lex_lt(a, b) {
            lemma_lex_asymmetric(a, b);
        } else {
            lemma_lex_irreflexive(a);
        }
    }
}

/// The sibling order never puts two nodes each before the other, nor a
/// node before itself.
proof fn lemma_child_order_not_both(m: Map<IdV, NodeV>, a: IdV, b: IdV)
    requires
        child_order(m)(a, b),
    ensures
        !child_order(m)(b, a),
        a != b,
{
    let fa = byte_codes(m[a].fi);
    let fb = byte_codes(m[b].fi);
    if lex_lt(fa, fb) {
        lemma_lex_asymmetric(fa, fb);
    } else {
        lemma_id_lt_asymmetric(a, b);
        if lex_lt(fb, fa) {
            lemma_lex_irreflexive(fa);
        }
    }
}

/// Moving a node before `other` gives it `other`'s index, so that the two
/// are ordered by id. Moving it after `other` gives it the index of the
/// first sibling that follows `other` in sibling order: an index no earlier
/// than `other`'s, that of a later sibling, no later than any later
/// sibling's, with no sibling's index strictly between the two; so the node
/// lands right after `other` (among siblings sharing that index, by id).
/// When `other` is the last child, the index is the one made after
/// `other`'s.
pub proof fn law_move_beside_lands_next_to_other(m: Map<IdV, NodeV>, other: IdV)
    requires
        parent_in(m, other) is Some,
        children_in_order(m, parent_in(m, other)->0),
        children_or_empty(m, parent_in(m, other)->0).contains(other),
    ensures
        relative_target(m, other, 0).0 == parent_in(m, other)->0,
        relative_target(m, other, 1).0 == parent_in(m, other)->0,
        relative_target(m, other, 0).1 == m[other].fi,
        ({
            let p = parent_in(m, other)->0;
            let f = relative_target(m, other, 1).1;
            let of = m[other].fi;
            let s = m[p].children;
            &&& s.last() != other ==> !lex_lt(byte_codes(f), byte_codes(of))
            &&& s.last() == other ==> f == crate::fractional::new_after_bytes(of)
            &&& forall|y: IdV|
                #[trigger] s.contains(y) ==> !(lex_lt(byte_codes(of), byte_codes(m[y].fi)) && lex_lt(
                    byte_codes(m[y].fi),
                    byte_codes(f),
                ))
            &&& s.last() != other ==> exists|y: IdV|
                #[trigger] s.contains(y) && child_order(m)(other, y) && m[y].fi == f
            &&& forall|y: IdV|
                #[trigger] s.contains(y) && child_order(m)(other, y) ==> !lex_lt(
                    byte_codes(m[y].fi),
                    byte_codes(f),
                )
        }),
{
    let p = parent_in(m, other)->0;
    let s = m[p].children;
    assert(children_or_empty(m, p) == s);
    let i0 = choose|i: int| 0 <= i < s.len() && s[i] == other;
    assert forall|j: int| 0 <= j < i0 implies s[j] != other by {
        assert(child_order(m)(s[j], s[i0]));
        if s[j] == other {
            lemma_lex_irreflexive(byte_codes(m[other].fi));
            if crate::node::id_lt(other, other) {
                lemma_id_lt_asymmetric(other, other);
            }
        }
    }
    lemma_first_index(s, other, i0);
    let i = i0;
    assert(first_index(children_or_empty(m, p), other) == i);
    let f = relative_target(m, other, 1).1;
    let of = m[other].fi;
    assert(f == beside_index(m, p, i + 1));
    if i + 1 < s.len() {
        assert(f == m[s[i + 1]].fi);
        lemma_ordered_not_before(m, p, i, i + 1);
        assert(child_order(m)(s[i], s[i + 1]));
        assert(s.contains(s[i + 1]));
    } else {
        assert(s.last() == other);
    }
    assert forall|y: IdV| #[trigger] s.contains(y) && child_order(m)(other, y) implies !lex_lt(
        byte_codes(m[y].fi),
        byte_codes(f),
    ) by {
        let j = choose|j: int| 0 <= j < s.len() && s[j] == y;
        if j <= i {
            if j < i {
                assert(child_order(m)(s[j], s[i]));
            }
            lemma_child_order_not_both(m, other, y);
        } else {
            lemma_ordered_not_before(m, p, i + 1, j);
        }
    }
    assert forall|y: IdV| #[trigger] s.contains(y) implies !(lex_lt(byte_codes(of), byte_codes(m[y].fi))
        && lex_lt(byte_codes(m[y].fi), byte_codes(f))) by {
        let j = choose|j: int| 0 <= j < s.len() && s[j] == y;
        if j <= i {
            lemma_ordered_not_before(m, p, j, i);
            if lex_lt(byte_codes(of), byte_codes(m[y].fi)) {
                lemma_lex_asymmetric(byte_codes(of), byte_codes(m[y].fi));
            }
        } else {
            assert(i + 1 < s.len());
            lemma_ordered_not_before(m, p, i + 1, j);
            if lex_lt(byte_codes(m[y].fi), byte_codes(f)) {
                lemma_lex_asymmetric(byte_codes(m[y].fi), byte_codes(f));
            }
        }
    }
}

/// Climbing from a node at or below `s` for the next sibling stops at `s`,
/// so whatever it finds lies below `s`.
proof fn lemma_climb_stays_below(m: Map<IdV, NodeV>, s: IdV, cur: IdV, f: nat)
    requires
        tree_links(m),
        below(m, cur, s),
    ensures
        sibling_above(m, s, cur, f) matches Some(z) ==> below(m, z, s),
    decreases f,
{
    if f > 0 && cur != s {
        if let Some(p) = parent_in(m, cur) {
            if m.contains_key(p) && m[p].children.contains(cur) {
                let k = choose|k: nat| ancestor(m, cur, k) == Some(s);
                assert(ancestor(m, cur, 0) == Some(cur));
                assert(k >= 1);
                assert(ancestor(m, cur, 1) == Some(p));
                lemma_ancestor_compose(m, cur, 1, (k - 1) as nat, p);
                assert(1 + (k - 1) as nat == k);
                assert(ancestor(m, p, (k - 1) as nat) == Some(s));
                let sibs = m[p].children;
                let i = first_index(sibs, cur);
                if i + 1 < sibs.len() {
                    let z = sibs[i + 1];
                    assert(0 <= i) by {
                        let i1 = choose|i1: int| 0 <= i1 < sibs.len() && sibs[i1] == cur;
                        assert(exists|t: int|
                            0 <= t < sibs.len() && sibs[t] == cur && forall|u: int| 0 <= u < t ==> sibs[u] != cur)
                            by {
                            lemma_first_occurrence(sibs, cur, i1);
                        }
                    }
                    assert(m.contains_key(z) && m[z].parent == Some(p));
                    assert(ancestor(m, z, 0) == Some(z));
                    assert(ancestor(m, z, 1) == Some(p));
                    lemma_ancestor_compose(m, z, 1, (k - 1) as nat, p);
                    assert(below(m, z, s));
                } else {
                    assert(below(m, p, s));
                    lemma_climb_stays_below(m, s, p, (f - 1) as nat);
                }
            }
        }
    }
}

/// A sequence holding `x` holds it a first time.
proof fn lemma_first_occurrence(sq: Seq<IdV>, x: IdV, i: int)
    requires
        0 <= i < sq.len(),
        sq[i] == x,
    ensures
        exists|t: int| 0 <= t < sq.len() && sq[t] == x && forall|u: int| 0 <= u < t ==> sq[u] != x,
    decreases i,
{
    if exists|u: int| 0 <= u < i && sq[u] == x {
        let u = choose|u: int| 0 <= u < i && sq[u] == x;
        lemma_first_occurrence(sq, x, u);
    } else {
        assert(forall|u: int| 0 <= u < i ==> sq[u] != x);
    }
}

/// A depth-first walk from any start node visits only that node and the
/// nodes below it: it starts there, each step from a node at or below it
/// goes to another such node or ends the walk.
pub proof fn law_depth_first_walk_stays_below_start(m: Map<IdV, NodeV>, s: IdV, y: IdV)
    requires
        tree_links(m),
        below(m, y, s),
    ensures
        dfs_next(m, s, None) == Some(s),
        dfs_next(m, s, Some(y)) matches Some(z) ==> below(m, z, s),
        forall|k: nat| #[trigger] dfs_walk_from(m, s, k) matches Some(z) ==> below(m, z, s),
{
    lemma_dfs_step_below(m, s, y);
    assert forall|k: nat| (#[trigger] dfs_walk_from(m, s, k) matches Some(z) ==> below(m, z, s)) by {
        lemma_dfs_walk_below(m, s, k);
    }
}

proof fn lemma_dfs_step_below(m: Map<IdV, NodeV>, s: IdV, y: IdV)
    requires
        tree_links(m),
        below(m, y, s),
    ensures
        dfs_next(m, s, Some(y)) matches Some(z) ==> below(m, z, s),
{
    if m.contains_key(y) {
        if m[y].children.len() > 0 {
            let z = m[y].children[0];
            let k = choose|k: nat| ancestor(m, y, k) == Some(s);
            assert(m.contains_key(z) && m[z].parent == Some(y));
            assert(ancestor(m, z, 0) == Some(z));
            assert(ancestor(m, z, 1) == Some(y));
            lemma_ancestor_compose(m, z, 1, k, y);
            assert(below(m, z, s));
        } else {
            lemma_climb_stays_below(m, s, y, m.len());
        }
    }
}

proof fn lemma_dfs_walk_below(m: Map<IdV, NodeV>, s: IdV, k: nat)
    requires
        tree_links(m),
    ensures
        dfs_walk_from(m, s, k) matches Some(z) ==> below(m, z, s),
    decreases k,
{
    if k == 0 {
        assert(ancestor(m, s, 0) == Some(s));
    } else {
        lemma_dfs_walk_below(m, s, (k - 1) as nat);
        if let Some(x) = dfs_walk_from(m, s, (k - 1) as nat) {
            lemma_dfs_step_below(m, s, x);
        }
    }
}

/// The nodes given so far and the queue after `k` steps of a breadth-first
/// walk from the root.
pub open spec fn bfs_state(m: Map<IdV, NodeV>, k: nat) -> (Seq<IdV>, Seq<IdV>)
    decreases k,
{
    if k == 0 {
        (Seq::empty(), seq![None])
    } else {
        let (given, queue) = bfs_state(m, (k - 1) as nat);
        match bfs_next(m, queue).0 {
            Some(a) => (given.push(a), bfs_next(m, queue).1),
            None => (given, queue),
        }
    }
}

/// What holds of a breadth-first walk after `k` steps: the nodes given and
/// queued are distinct nodes, the root among them; the children of every
/// node given are given or queued; every node given or queued but the root
/// has its parent given; and while the queue is not empty, one node was
/// given per step.
#[verifier::opaque]
spec fn bfs_inv(m: Map<IdV, NodeV>, given: Seq<IdV>, queue: Seq<IdV>, k: nat) -> bool {
    let all = given + queue;
    &&& all.no_duplicates()
    &&& forall|i: int| 0 <= i < all.len() ==> m.contains_key(#[trigger] all[i])
    &&& all.contains(None)
    &&& forall|i: int, c: IdV|
        0 <= i < given.len() && #[trigger] m[given[i]].children.contains(c) ==> all.contains(c)
    &&& forall|i: int|
        0 <= i < all.len() && #[trigger] all[i] != None::<Seq<char>> ==> (m[all[i]].parent matches Some(
            q,
        ) && given.contains(q))
    &&& queue.len() > 0 ==> given.len() == k
}

proof fn lemma_bfs_inv(m: Map<IdV, NodeV>, k: nat)
    requires
        tree_shaped(m),
    ensures
        bfs_inv(m, bfs_state(m, k).0, bfs_state(m, k).1, k),
    decreases k,
{
    reveal(bfs_inv);
    if k == 0 {
        let all = Seq::<IdV>::empty() + seq![None::<Seq<char>>];
        assert(all =~= seq![None::<Seq<char>>]);
        assert(all[0] == None::<Seq<char>>);
    } else {
        lemma_bfs_inv(m, (k - 1) as nat);
        let (y, q) = bfs_state(m, (k - 1) as nat);
        if q.len() > 0 {
            let a = q[0];
            let cs = children_or_empty(m, a);
            let all = y + q;
            assert(all[y.len() as int] == a);
            assert(m.contains_key(a));
            assert(cs == m[a].children);
            let y2 = y.push(a);
            let q2 = q.drop_first() + cs;
            assert(bfs_state(m, k) == (y2, q2));
            let all2 = y2 + q2;
            assert(all2 =~= all + cs);
            assert forall|t: int| 0 <= t < cs.len() implies m.contains_key(#[trigger] cs[t]) && m[cs[t]].parent
                == Some(a) && !all.contains(cs[t]) by {
                assert(m.contains_key(m[a].children[t]) && m[m[a].children[t]].parent == Some(a));
                let c = cs[t];
                if all.contains(c) {
                    let u = choose|u: int| 0 <= u < all.len() && all[u] == c;
                    if c == None::<Seq<char>> {
                        assert(m[None::<Seq<char>>].parent is None);
                    }
                    assert(all[u] != None::<Seq<char>>);
                    assert(y.contains(a));
                    let v = choose|v: int| 0 <= v < y.len() && y[v] == a;
                    assert(all[v] == a);
                    assert(v != y.len());
                }
            }
            assert(all2.no_duplicates()) by {
                assert forall|i: int, j: int| 0 <= i < all2.len() && 0 <= j < all2.len() && i != j implies all2[i]
                    != all2[j] by {
                    if i < all.len() && j < all.len() {
                        assert(all2[i] == all[i] && all2[j] == all[j]);
                    } else if i >= all.len() && j >= all.len() {
                        assert(all2[i] == cs[i - all.len()] && all2[j] == cs[j - all.len()]);
                        assert(m[a].children[i - all.len()] != m[a].children[j - all.len()]) by {
                            if i < j {
                                assert(m[a].children[i - all.len()] != m[a].children[j - all.len()]);
                            } else {
                                assert(m[a].children[j - all.len()] != m[a].children[i - all.len()]);
                            }
                        }
                    } else if i < all.len() {
                        assert(all2[i] == all[i]);
                        assert(all2[j] == cs[j - all.len()]);
                        assert(all.contains(all[i]));
                    } else {
                        assert(all2[j] == all[j]);
                        assert(all2[i] == cs[i - all.len()]);
                        assert(all.contains(all[j]));
                    }
                }
            }
            assert forall|i: int| 0 <= i < all2.len() implies m.contains_key(#[trigger] all2[i]) by {
                if i < all.len() {
                    assert(all2[i] == all[i]);
                } else {
                    assert(all2[i] == cs[i - all.len()]);
                }
            }
            assert(all2.contains(None)) by {
                let u = choose|u: int| 0 <= u < all.len() && all[u] == None::<Seq<char>>;
                assert(all2[u] == all[u]);
            }
            assert forall|i: int, c: IdV|
                0 <= i < y2.len() && #[trigger] m[y2[i]].children.contains(c) implies all2.contains(c) by {
                if i < y.len() {
                    assert(y2[i] == y[i]);
                    assert(all.contains(c));
                    let u = choose|u: int| 0 <= u < all.len() && all[u] == c;
                    assert(all2[u] == all[u]);
                } else {
                    assert(y2[i] == a);
                    let t = choose|t: int| 0 <= t < cs.len() && cs[t] == c;
                    assert(all2[all.len() + t] == c);
                }
            }
            assert forall|i: int| 0 <= i < all2.len() && #[trigger] all2[i] != None::<Seq<char>> implies (
            m[all2[i]].parent matches Some(r) && y2.contains(r)) by {
                if i < all.len() {
                    assert(all2[i] == all[i]);
                    let r = m[all[i]].parent->0;
                    let v = choose|v: int| 0 <= v < y.len() && y[v] == r;
                    assert(y2[v] == r);
                } else {
                    assert(all2[i] == cs[i - all.len()]);
                    assert(y2[y.len() as int] == a);
                }
            }
        } else {
            assert(bfs_next(m, q).0 is None);
            assert(bfs_state(m, k) == (y, q));
        }
    }
}

/// The nodes given and queued, in that order, come in non-decreasing
/// depth, and the queue spans at most two depths.
spec fn bfs_levels(m: Map<IdV, NodeV>, given: Seq<IdV>, queue: Seq<IdV>) -> bool {
    let all = given + queue;
    &&& forall|i: int, j: int|
        0 <= i <= j < all.len() ==> depth_of(m, #[trigger] all[i]) <= depth_of(m, #[trigger] all[j])
    &&& queue.len() > 0 ==> depth_of(m, queue.last()) <= depth_of(m, queue[0]) + 1
}

/// A child in a tree is one level deeper than its parent.
proof fn lemma_child_level(m: Map<IdV, NodeV>, a: IdV, c: IdV)
    requires
        tree_shaped(m),
        m.contains_key(c),
        m[c].parent == Some(a),
    ensures
        depth_of(m, c) == depth_of(m, a) + 1,
{
    let k = choose|k: nat| ancestor(m, c, k) == Some(None::<Seq<char>>);
    if c is None {
        assert(m[None::<Seq<char>>].parent is None);
    }
    assert(ancestor(m, c, 0) == Some(c));
    assert(k >= 1);
    assert(reaches(m, c, None));
    law_depth_steps(m, c);
}

proof fn lemma_bfs_levels(m: Map<IdV, NodeV>, k: nat)
    requires
        tree_shaped(m),
    ensures
        bfs_levels(m, bfs_state(m, k).0, bfs_state(m, k).1),
    decreases k,
{
    reveal(bfs_inv);
    if k == 0 {
        let all = Seq::<IdV>::empty() + seq![None::<Seq<char>>];
        assert(all =~= seq![None::<Seq<char>>]);
    } else {
        lemma_bfs_levels(m, (k - 1) as nat);
        lemma_bfs_inv(m, (k - 1) as nat);
        let (y, q) = bfs_state(m, (k - 1) as nat);
        if q.len() > 0 {
            let a = q[0];
            let cs = children_or_empty(m, a);
            let all = y + q;
            assert(all[y.len() as int] == a);
            assert(m.contains_key(a));
            assert(cs == m[a].children);
            let y2 = y.push(a);
            let q2 = q.drop_first() + cs;
            assert(bfs_state(m, k) == (y2, q2));
            let all2 = y2 + q2;
            assert(all2 =~= all + cs);
            let da = depth_of(m, a);
            assert forall|t: int| 0 <= t < cs.len() implies depth_of(m, #[trigger] cs[t]) == da + 1 by {
                assert(m.contains_key(m[a].children[t]) && m[m[a].children[t]].parent == Some(a));
                lemma_child_level(m, a, cs[t]);
            }
            assert(all.last() == q.last());
            assert(depth_of(m, all[all.len() - 1]) <= da + 1);
            assert forall|i: int, j: int| 0 <= i <= j < all2.len() implies depth_of(m, #[trigger] all2[i])
                <= depth_of(m, #[trigger] all2[j]) by {
                if j < all.len() {
                    assert(all2[i] == all[i] && all2[j] == all[j]);
                } else if i < all.len() {
                    assert(all2[i] == all[i]);
                    assert(all2[j] == cs[j - all.len()]);
                    assert(depth_of(m, all[i]) <= depth_of(m, all[all.len() - 1]));
                } else {
                    assert(all2[i] == cs[i - all.len()]);
                    assert(all2[j] == cs[j - all.len()]);
                }
            }
            if q2.len() > 0 {
                if cs.len() > 0 {
                    assert(q2.last() == cs[cs.len() - 1]);
                } else {
                    assert(q2.last() == q.last());
                }
                if q.len() > 1 {
                    assert(q2[0] == q[1]);
                    assert(all[y.len() as int + 1] == q[1]);
                    assert(depth_of(m, all[y.len() as int]) <= depth_of(m, all[y.len() as int + 1]));
                } else {
                    assert(q2[0] == cs[0]);
                }
            }
        } else {
            assert(bfs_next(m, q).0 is None);
            assert(bfs_state(m, k) == (y, q));
        }
    }
}

/// The children of every node given so far come in their order among
/// `all`, the nodes given and then those queued.
spec fn bfs_sibling_order(m: Map<IdV, NodeV>, given: Seq<IdV>, all: Seq<IdV>) -> bool {
    forall|t: int, i: int, j: int|
        #![trigger m[given[t]].children[i], m[given[t]].children[j]]
        0 <= t < given.len() && 0 <= i < j < m[given[t]].children.len() ==> ordered_in(
            all,
            m[given[t]].children[i],
            m[given[t]].children[j],
        )
}

/// `a` and `b` are in `s`, `a` first.
pub open spec fn ordered_in(s: Seq<IdV>, a: IdV, b: IdV) -> bool {
    let u = first_index(s, a);
    let v = first_index(s, b);
    &&& 0 <= u < v < s.len()
    &&& s[u] == a
    &&& s[v] == b
}

/// In a sequence without repeats, the first position of the element at `u`
/// is `u`.
proof fn lemma_first_index_unique(sq: Seq<IdV>, u: int)
    requires
        sq.no_duplicates(),
        0 <= u < sq.len(),
    ensures
        first_index(sq, sq[u]) == u,
{
    lemma_first_index(sq, sq[u], u);
}

/// One step of the walk keeps the children of every node given in their
/// order.
proof fn lemma_sibling_order_step(m: Map<IdV, NodeV>, y: Seq<IdV>, q: Seq<IdV>)
    requires
        bfs_sibling_order(m, y, y + q),
        q.len() > 0,
        m.contains_key(q[0]),
        (y.push(q[0]) + (q.drop_first() + children_or_empty(m, q[0]))).no_duplicates(),
    ensures
        bfs_sibling_order(m, y.push(q[0]), y.push(q[0]) + (q.drop_first() + children_or_empty(m, q[0]))),
{
    let a = q[0];
    let cs = children_or_empty(m, a);
    let all = y + q;
    assert(cs == m[a].children);
    let y2 = y.push(a);
    let q2 = q.drop_first() + cs;
    let all2 = y2 + q2;
    assert(all2 =~= all + cs);
    assert forall|t: int, i: int, j: int|
        #![trigger m[y2[t]].children[i], m[y2[t]].children[j]]
        0 <= t < y2.len() && 0 <= i < j < m[y2[t]].children.len() implies ordered_in(
            all2,
            m[y2[t]].children[i],
            m[y2[t]].children[j],
        ) by {
        let ci = m[y2[t]].children[i];
        let cj = m[y2[t]].children[j];
        if t < y.len() {
            assert(y2[t] == y[t]);
            assert(m[y[t]].children[i] == ci && m[y[t]].children[j] == cj);
            let u = first_index(all, ci);
            let v = first_index(all, cj);
            assert(all2[u] == all[u] && all2[v] == all[v]);
            lemma_first_index_unique(all2, u);
            lemma_first_index_unique(all2, v);
        } else {
            assert(y2[t] == a);
            let u = all.len() + i;
            let v = all.len() + j;
            assert(all2[u] == cs[i] && all2[v] == cs[j]);
            lemma_first_index_unique(all2, u);
            lemma_first_index_unique(all2, v);
        }
    }
    assert(bfs_sibling_order(m, y2, all2));
}

proof fn lemma_bfs_sibling_order(m: Map<IdV, NodeV>, k: nat)
    requires
        tree_shaped(m),
    ensures
        bfs_sibling_order(m, bfs_state(m, k).0, bfs_state(m, k).0 + bfs_state(m, k).1),
    decreases k,
{
    if k > 0 {
        lemma_bfs_sibling_order(m, (k - 1) as nat);
        lemma_bfs_inv(m, (k - 1) as nat);
        lemma_bfs_inv(m, k);
        let y = bfs_state(m, (k - 1) as nat).0;
        let q = bfs_state(m, (k - 1) as nat).1;
        if q.len() > 0 {
            assert(m.contains_key(q[0])) by {
                reveal(bfs_inv);
                assert((y + q)[y.len() as int] == q[0]);
            }
            let y2 = y.push(q[0]);
            let q2 = q.drop_first() + children_or_empty(m, q[0]);
            assert(bfs_state(m, k) == (y2, q2));
            assert(bfs_state(m, k).0 == y2 && bfs_state(m, k).1 == q2);
            assert((y2 + q2).no_duplicates()) by {
                reveal(bfs_inv);
            }
            lemma_sibling_order_step(m, y, q);
        } else {
            assert(bfs_next(m, q).0 is None);
            assert(bfs_state(m, k) == (y, q));
            assert(bfs_state(m, k).0 == y && bfs_state(m, k).1 == q);
        }
    } else {
        assert(bfs_state(m, 0).0.len() == 0);
    }
}

/// At the end of the walk, the children of every node given come in their
/// order among the nodes given.
proof fn lemma_final_sibling_order(m: Map<IdV, NodeV>, y: Seq<IdV>, q: Seq<IdV>)
    requires
        bfs_sibling_order(m, y, y + q),
        q.len() == 0,
        forall|x: IdV| #[trigger] y.contains(x) <==> m.contains_key(x),
    ensures
        forall|a: IdV, i: int, j: int|
            #![trigger m[a].children[i], m[a].children[j]]
            m.contains_key(a) && 0 <= i < j < m[a].children.len() ==> first_index(y, m[a].children[i])
                < first_index(y, m[a].children[j]),
{
    assert(y + q =~= y);
    assert forall|a: IdV, i: int, j: int|
        #![trigger m[a].children[i], m[a].children[j]]
        m.contains_key(a) && 0 <= i < j < m[a].children.len() implies first_index(y, m[a].children[i])
            < first_index(y, m[a].children[j]) by {
        assert(y.contains(a));
        let t = choose|t: int| 0 <= t < y.len() && y[t] == a;
        assert(m[y[t]].children[i] == m[a].children[i]);
        assert(m[y[t]].children[j] == m[a].children[j]);
    }
}

/// A node whose chain reaches the root is given by a walk that gave the
/// root and, for each node given, its children.
proof fn lemma_bfs_covers(m: Map<IdV, NodeV>, given: Seq<IdV>, x: IdV, k: nat)
    requires
        tree_shaped(m),
        m.contains_key(x),
        ancestor(m, x, k) == Some(None::<Seq<char>>),
        given.contains(None),
        forall|i: int, c: IdV|
            0 <= i < given.len() && #[trigger] m[given[i]].children.contains(c) ==> given.contains(c),
    ensures
        given.contains(x),
    decreases k,
{
    assert(ancestor(m, x, 0) == Some(x));
    if k > 0 {
        if ancestor(m, x, 1) is None {
            lemma_ancestor_none(m, x, 1, k);
        }
        assert(ancestor(m, x, 1) == parent_in(m, x));
        let p = m[x].parent->0;
        assert(m.contains_key(p) && m[p].children.contains(x));
        lemma_ancestor_compose(m, x, 1, (k - 1) as nat, p);
        assert(1 + (k - 1) as nat == k);
        lemma_bfs_covers(m, given, p, (k - 1) as nat);
        let i = choose|i: int| 0 <= i < given.len() && given[i] == p;
        assert(m[given[i]].children.contains(x));
    }
}

/// A breadth-first walk from the root of a tree gives every node of the
/// tree exactly once, the root first, and its queue is empty after as many
/// steps as there are nodes.
pub proof fn law_breadth_first_walk_covers_tree(m: Map<IdV, NodeV>)
    requires
        tree_shaped(m),
    ensures
        bfs_state(m, m.len()).1.len() == 0,
        bfs_state(m, m.len()).0.no_duplicates(),
        forall|x: IdV| #[trigger] bfs_state(m, m.len()).0.contains(x) <==> m.contains_key(x),
        bfs_state(m, 1).0 == seq![None::<Seq<char>>],
        forall|i: int, j: int|
            0 <= i <= j < bfs_state(m, m.len()).0.len() ==> depth_of(m, #[trigger] bfs_state(m, m.len()).0[i])
                <= depth_of(m, #[trigger] bfs_state(m, m.len()).0[j]),
        forall|a: IdV, i: int, j: int|
            #![trigger m[a].children[i], m[a].children[j]]
            m.contains_key(a) && 0 <= i < j < m[a].children.len() ==> first_index(
                bfs_state(m, m.len()).0,
                m[a].children[i],
            ) < first_index(bfs_state(m, m.len()).0, m[a].children[j]),
{
    let n = m.len();
    lemma_bfs_inv(m, n);
    lemma_bfs_levels(m, n);
    lemma_bfs_sibling_order(m, n);
    reveal(bfs_inv);
    let (y, q) = bfs_state(m, n);
    let all = y + q;
    assert(all.to_set().subset_of(m.dom())) by {
        assert forall|x: IdV| all.to_set().contains(x) implies m.dom().contains(x) by {
            let u = choose|u: int| 0 <= u < all.len() && all[u] == x;
        }
    }
    all.unique_seq_to_set();
    vstd::set_lib::lemma_len_subset(all.to_set(), m.dom());
    assert(q.len() == 0);
    assert(all =~= y);
    assert forall|i: int, j: int| 0 <= i <= j < y.len() implies depth_of(m, #[trigger] y[i]) <= depth_of(
        m,
        #[trigger] y[j],
    ) by {
        assert(all[i] == y[i] && all[j] == y[j]);
    }
    assert forall|x: IdV| #[trigger] y.contains(x) <==> m.contains_key(x) by {
        if y.contains(x) {
            let u = choose|u: int| 0 <= u < y.len() && y[u] == x;
            assert(all[u] == x);
        }
        if m.contains_key(x) {
            let k = choose|k: nat| ancestor(m, x, k) == Some(None::<Seq<char>>);
            lemma_bfs_covers(m, y, x, k);
        }
    }
    lemma_final_sibling_order(m, bfs_state(m, m.len()).0, bfs_state(m, m.len()).1);
    assert(bfs_state(m, 0) == (Seq::<IdV>::empty(), seq![None::<Seq<char>>]));
    assert(bfs_next(m, seq![None::<Seq<char>>]).0 == Some(None::<Seq<char>>));
    assert(bfs_state(m, 1).0 =~= seq![None::<Seq<char>>]);
}

} // verus!
