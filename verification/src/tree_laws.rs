//! What holds of the queries on a tree: depths and siblings.
use vstd::prelude::*;

use crate::model::{IdV, NodeV, ancestor, lemma_ancestor_none, lemma_ancestor_repeats, lemma_ancestor_shift, parent_in, reaches};
use crate::ops::{depth_of, levels};

verus! {

/// The first step at which the chain of ancestors above `x` reaches the
/// root, given one step `k0` at which it does.
proof fn first_root_step(m: Map<IdV, NodeV>, x: IdV, k0: nat) -> (k: nat)
    requires
        k0 >= 1,
        ancestor(m, x, k0) == Some(None::<Seq<char>>),
    ensures
        1 <= k <= k0,
        ancestor(m, x, k) == Some(None::<Seq<char>>),
        forall|j: nat| 1 <= j < k ==> #[trigger] ancestor(m, x, j) != Some(None::<Seq<char>>),
    decreases k0,
{
    if exists|j: nat| 1 <= j < k0 && #[trigger] ancestor(m, x, j) == Some(None::<Seq<char>>) {
        let j = choose|j: nat| 1 <= j < k0 && #[trigger] ancestor(m, x, j) == Some(None::<Seq<char>>);
        first_root_step(m, x, j)
    } else {
        k0
    }
}

/// Counting from step `j` of a chain that first reaches the root at step
/// `k`, there are `k - j` links left, when the fuel allows.
proof fn lemma_levels(m: Map<IdV, NodeV>, x: IdV, k: nat, j: nat, fuel: nat)
    requires
        1 <= j <= k,
        fuel >= k - j,
        ancestor(m, x, k) == Some(None::<Seq<char>>),
        forall|i: nat| 1 <= i < k ==> #[trigger] ancestor(m, x, i) != Some(None::<Seq<char>>),
    ensures
        levels(m, ancestor(m, x, j), fuel) == k - j,
    decreases k - j,
{
    if j < k {
        if ancestor(m, x, j) is None {
            lemma_ancestor_none(m, x, j, k);
        }
        let y = ancestor(m, x, j)->0;
        assert(y is Some);
        assert(ancestor(m, x, j + 1) == parent_in(m, y));
        lemma_levels(m, x, k, j + 1, (fuel - 1) as nat);
    }
}

/// A chain that reaches the root does so within one step more than there
/// are nodes.
proof fn lemma_root_step_bound(m: Map<IdV, NodeV>, x: IdV, k: nat)
    requires
        m.dom().finite(),
        k >= 1,
        ancestor(m, x, k) == Some(None::<Seq<char>>),
        forall|i: nat| 1 <= i < k ==> #[trigger] ancestor(m, x, i) != Some(None::<Seq<char>>),
    ensures
        k <= m.len() + 1,
{
    let n = m.len();
    if k >= n + 2 {
        if ancestor(m, x, n + 2) is None {
            lemma_ancestor_none(m, x, n + 2, k);
        }
        let (a, b) = lemma_ancestor_repeats(m, x, n);
        lemma_ancestor_shift(m, x, a, b, (k - b) as nat);
        assert(ancestor(m, x, (a + (k - b)) as nat) == Some(None::<Seq<char>>));
    }
}

/// The root has depth 0, and every other node whose parent links lead to
/// the root has a depth one more than its parent's.
pub proof fn law_depth_steps(m: Map<IdV, NodeV>, x: IdV)
    requires
        m.dom().finite(),
        x is Some,
        parent_in(m, x) is Some,
        reaches(m, x, None),
    ensures
        depth_of(m, None) == 0,
        depth_of(m, x) == depth_of(m, parent_in(m, x)->0) + 1,
{
    let k0 = choose|k: nat| k >= 1 && ancestor(m, x, k) == Some(None::<Seq<char>>);
    let k = first_root_step(m, x, k0);
    lemma_root_step_bound(m, x, k);
    let p = parent_in(m, x)->0;
    assert(ancestor(m, x, 1) == parent_in(m, x)) by {
        assert(ancestor(m, x, 0) == Some(x));
    }
    lemma_levels(m, x, k, 1, m.len());
    if k >= 2 {
        assert(p is Some) by {
            assert(ancestor(m, x, 1) != Some(None::<Seq<char>>));
        }
        if ancestor(m, x, 1) is None {
            lemma_ancestor_none(m, x, 1, k);
        }
        assert(ancestor(m, x, 2) == parent_in(m, p));
        lemma_levels(m, x, k, 2, m.len());
    } else {
        assert(p is None);
    }
}

} // verus!
