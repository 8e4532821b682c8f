//! The mathematical model of a tree structure: a map from node ids to
//! nodes, and reachability along parent links.
use vstd::prelude::*;
use vstd::set_lib::{lemma_int_range, lemma_len_subset, lemma_map_size, set_int_range};

verus! {

/// A node id as a value: `None` for the root, the id's string otherwise.
pub type IdV = Option<Seq<char>>;

/// A node as a value.
pub struct NodeV {
    pub parent: Option<IdV>,
    pub children: Seq<IdV>,
    pub fi: Seq<u8>,
    pub edges: Map<Seq<char>, i64>,
}

/// The parent of `x`, if `x` is a node and has one.
pub open spec fn parent_in(m: Map<IdV, NodeV>, x: IdV) -> Option<IdV> {
    if m.contains_key(x) {
        m[x].parent
    } else {
        None
    }
}

/// The node `k` parent links above `x`, if there is one.
pub open spec fn ancestor(m: Map<IdV, NodeV>, x: IdV, k: nat) -> Option<IdV>
    decreases k,
{
    if k == 0 {
        Some(x)
    } else {
        match ancestor(m, x, (k - 1) as nat) {
            Some(y) => parent_in(m, y),
            None => None,
        }
    }
}

/// Following parent links from `x` leads to `t`: when `x` has a parent, `t`
/// is one of its ancestors; when it has none, `x` is `t` itself.
pub open spec fn reaches(m: Map<IdV, NodeV>, x: IdV, t: IdV) -> bool {
    if parent_in(m, x) is None {
        x == t
    } else {
        exists|k: nat| k >= 1 && ancestor(m, x, k) == Some(t)
    }
}

/// Once the chain of ancestors ends, it stays ended.
pub proof fn lemma_ancestor_none(m: Map<IdV, NodeV>, x: IdV, a: nat, b: nat)
    requires
        a <= b,
        ancestor(m, x, a) is None,
    ensures
        ancestor(m, x, b) is None,
    decreases b - a,
{
    if a < b {
        lemma_ancestor_none(m, x, a, (b - 1) as nat);
    }
}

/// Equal ancestors have equal ancestors further on.
pub proof fn lemma_ancestor_shift(m: Map<IdV, NodeV>, x: IdV, a: nat, b: nat, n: nat)
    requires
        ancestor(m, x, a) == ancestor(m, x, b),
    ensures
        ancestor(m, x, a + n) == ancestor(m, x, b + n),
    decreases n,
{
    if n > 0 {
        lemma_ancestor_shift(m, x, a, b, (n - 1) as nat);
        assert(ancestor(m, x, a + n) == match ancestor(m, x, (a + n - 1) as nat) {
            Some(y) => parent_in(m, y),
            None => None,
        });
        assert(ancestor(m, x, b + n) == match ancestor(m, x, (b + n - 1) as nat) {
            Some(y) => parent_in(m, y),
            None => None,
        });
    }
}

/// When the chain of ancestors comes back to a node it visited (at steps
/// `a < b`), every ancestor from step 1 on is one of the first `b`.
pub proof fn lemma_ancestor_cycle(m: Map<IdV, NodeV>, x: IdV, a: nat, b: nat, k: nat) -> (j: nat)
    requires
        1 <= a < b,
        ancestor(m, x, a) == ancestor(m, x, b),
        k >= 1,
    ensures
        1 <= j <= b,
        ancestor(m, x, k) == ancestor(m, x, j),
    decreases k,
{
    if k <= b {
        k
    } else {
        let p = (b - a) as nat;
        lemma_ancestor_shift(m, x, a, b, (k - b) as nat);
        assert(a + (k - b) == k - p);
        lemma_ancestor_cycle(m, x, a, b, (k - p) as nat)
    }
}

/// Among the first `n + 1` ancestors above `x` (steps 1 to `n + 1`), when
/// all exist and all but the last are nodes of a map with `n` nodes, two are
/// the same.
pub proof fn lemma_ancestor_repeats(m: Map<IdV, NodeV>, x: IdV, n: nat) -> (r: (nat, nat))
    requires
        m.dom().finite(),
        m.dom().len() == n,
        ancestor(m, x, n + 2) is Some,
    ensures
        1 <= r.0 < r.1 <= n + 1,
        ancestor(m, x, r.0) == ancestor(m, x, r.1),
{
    assert forall|k: int| 1 <= k <= n + 1 implies #[trigger] ancestor(m, x, k as nat) is Some
        && m.dom().contains(ancestor(m, x, k as nat).unwrap()) by {
        if ancestor(m, x, k as nat) is None {
            lemma_ancestor_none(m, x, k as nat, n + 2);
        }
        if ancestor(m, x, (k + 1) as nat) is None {
            lemma_ancestor_none(m, x, (k + 1) as nat, n + 2);
        }
        assert(ancestor(m, x, (k + 1) as nat) == match ancestor(m, x, k as nat) {
            Some(y) => parent_in(m, y),
            None => None,
        });
    }
    lemma_chain_repeats(m, x, n)
}

/// Among steps 1 to `n + 1` of the chain above `x`, when all of them are
/// nodes of a map with `n` nodes, two are the same.
pub proof fn lemma_chain_repeats(m: Map<IdV, NodeV>, x: IdV, n: nat) -> (r: (nat, nat))
    requires
        m.dom().finite(),
        m.dom().len() == n,
        forall|k: int| 1 <= k <= n + 1 ==> #[trigger] ancestor(m, x, k as nat) is Some
            && m.dom().contains(ancestor(m, x, k as nat).unwrap()),
    ensures
        1 <= r.0 < r.1 <= n + 1,
        ancestor(m, x, r.0) == ancestor(m, x, r.1),
{
    let steps = set_int_range(1, n as int + 2);
    lemma_int_range(1, n as int + 2);
    let f = |k: int| ancestor(m, x, k as nat).unwrap();
    let img = steps.map(f);
    assert(img.subset_of(m.dom())) by {
        assert forall|y: IdV| img.contains(y) implies m.dom().contains(y) by {
            let k = choose|k: int| steps.contains(k) && f(k) == y;
            assert(1 <= k <= n + 1);
            assert(ancestor(m, x, k as nat) is Some);
        }
    }
    lemma_len_subset(img, m.dom());
    if injective_on_range(f, n) {
        assert(vstd::relations::injective_on(f, steps)) by {
            assert forall|a: int, b: int| steps.contains(a) && steps.contains(b) && #[trigger] f(a)
                == #[trigger] f(b) implies a == b by {
                if a != b {
                    if a < b {
                        assert(f(a) != f(b));
                    } else {
                        assert(f(b) != f(a));
                    }
                }
            }
        }
        lemma_map_size(steps, img, f);
        assert(false);
        (0, 0)
    } else {
        let (a, b) = choose|a: int, b: int| 1 <= a < b <= n + 1 && #[trigger] f(a) == #[trigger] f(b);
        assert(ancestor(m, x, a as nat) is Some);
        assert(ancestor(m, x, b as nat) is Some);
        (a as nat, b as nat)
    }
}

spec fn injective_on_range(f: spec_fn(int) -> IdV, n: nat) -> bool {
    forall|a: int, b: int| 1 <= a < b <= n + 1 ==> #[trigger] f(a) != #[trigger] f(b)
}

} // verus!
