//! Walking the tree depth first or breadth first, one node at a time, over a
//! snapshot of the structure.
use std::collections::VecDeque;
use vstd::prelude::*;

use crate::model::{IdV, NodeV, parent_in};
use crate::node::NodeId;
use crate::tree_structure::{TreeStructure, ids_view, opt_id_view};

verus! {

/// The traversal order for iterating over the nodes in a tree.
#[derive(Clone, Copy, Debug)]
pub enum TraversalOrder {
    /// Depth-first traversal.
    DepthFirst,
    /// Breadth-first traversal.
    BreadthFirst,
}

/// The children of `x`; none when `x` is not a node.
pub open spec fn children_or_empty(m: Map<IdV, NodeV>, x: IdV) -> Seq<IdV> {
    if m.contains_key(x) {
        m[x].children
    } else {
        Seq::empty()
    }
}

/// One breadth-first step: the front of the queue is visited, and its
/// children join the back of the queue.
pub open spec fn bfs_next(m: Map<IdV, NodeV>, queue: Seq<IdV>) -> (Option<IdV>, Seq<IdV>) {
    if queue.len() == 0 {
        (None, queue)
    } else {
        (Some(queue[0]), queue.drop_first() + children_or_empty(m, queue[0]))
    }
}

/// The first position of `x` in `s`.
pub open spec fn first_index(s: Seq<IdV>, x: IdV) -> int {
    choose|i: int| 0 <= i < s.len() && s[i] == x && forall|j: int| 0 <= j < i ==> s[j] != x
}

/// Climbing from `cur` towards the root, the first sibling that follows one
/// of the nodes passed; none once `start` is reached, where a link is
/// missing, or after `fuel` steps.
pub open spec fn sibling_above(m: Map<IdV, NodeV>, start: IdV, cur: IdV, fuel: nat) -> Option<IdV>
    decreases fuel,
{
    if fuel == 0 || cur == start {
        None
    } else {
        match parent_in(m, cur) {
            None => None,
            Some(p) => if !m.contains_key(p) || !m[p].children.contains(cur) {
                None
            } else {
                let sibs = m[p].children;
                let i = first_index(sibs, cur);
                if i + 1 < sibs.len() {
                    Some(sibs[i + 1])
                } else {
                    sibling_above(m, start, p, (fuel - 1) as nat)
                }
            },
        }
    }
}

/// One depth-first step from the node visited last (none at first): the
/// start node first; then the first child of the last node; for a node
/// without children, the next sibling of the nearest node on the way up to
/// `start`. A climb longer than the number of nodes ends the walk.
pub open spec fn dfs_next(m: Map<IdV, NodeV>, start: IdV, last: Option<IdV>) -> Option<IdV> {
    match last {
        None => Some(start),
        Some(l) => if !m.contains_key(l) {
            None
        } else if m[l].children.len() > 0 {
            Some(m[l].children[0])
        } else {
            sibling_above(m, start, l, m.len())
        },
    }
}

/// The node that the `k`-th step of a depth-first walk from the root gives
/// (counting from 0), or `None` once the walk is over.
pub open spec fn dfs_walk(m: Map<IdV, NodeV>, k: nat) -> Option<IdV>
    decreases k,
{
    if k == 0 {
        dfs_next(m, None, None)
    } else {
        match dfs_walk(m, (k - 1) as nat) {
            Some(x) => dfs_next(m, None, Some(x)),
            None => None,
        }
    }
}

/// The node that the `k`-th step of a depth-first walk from `start` gives
/// (counting from 0), or `None` once the walk is over.
pub open spec fn dfs_walk_from(m: Map<IdV, NodeV>, start: IdV, k: nat) -> Option<IdV>
    decreases k,
{
    if k == 0 {
        dfs_next(m, start, None)
    } else {
        match dfs_walk_from(m, start, (k - 1) as nat) {
            Some(x) => dfs_next(m, start, Some(x)),
            None => None,
        }
    }
}

/// The first position of `x` in `s` is `i` when no earlier one holds it.
pub proof fn lemma_first_index(s: Seq<IdV>, x: IdV, i: int)
    requires
        0 <= i < s.len(),
        s[i] == x,
        forall|j: int| 0 <= j < i ==> s[j] != x,
    ensures
        first_index(s, x) == i,
{
    let k = first_index(s, x);
    if k < i {
        assert(s[k] == x);
    } else if k > i {
        assert(s[i] != x);
    }
}

/// The first position of `x` in `v`, if it is there.
pub fn position(v: &Vec<NodeId>, x: &NodeId) -> (r: Option<usize>)
    ensures
        r is None <==> !ids_view(v@).contains(x@),
        r matches Some(i) ==> i < v.len() && i == first_index(ids_view(v@), x@),
{
    let ghost s = ids_view(v@);
    let mut i: usize = 0;
    while i < v.len()
        invariant
            i <= v.len(),
            s == ids_view(v@),
            forall|j: int| 0 <= j < i ==> s[j] != x@,
        decreases v.len() - i,
    {
        if v[i].same(x) {
            proof {
                assert(s[i as int] == x@);
                lemma_first_index(s, x@, i as int);
            }
            return Some(i);
        }
        i = i + 1;
    }
    proof {
        if s.contains(x@) {
            let j = choose|j: int| 0 <= j < s.len() && s[j] == x@;
            assert(s[j] != x@);
        }
    }
    None
}

/// The next sibling found while climbing from `last` (see `sibling_above`).
fn next_sibling_above(structure: &TreeStructure, start: &NodeId, last: &NodeId) -> (r: Option<NodeId>)
    requires
        structure.wf(),
    ensures
        opt_id_view(r) == sibling_above(structure@, start@, last@, structure@.len()),
{
    let ghost m = structure@;
    let n = structure.len();
    let mut cur = last.clone();
    let mut fuel = n;
    while fuel > 0
        invariant
            structure.wf(),
            m == structure@,
            sibling_above(m, start@, cur@, fuel as nat) == sibling_above(m, start@, last@, m.len()),
        decreases fuel,
    {
        if cur.same(start) {
            return None;
        }
        let p = match structure.get_parent(&cur) {
            Some(p) => p.clone(),
            None => {
                return None;
            },
        };
        let sibs = match structure.get_children(&p) {
            Some(s) => s,
            None => {
                return None;
            },
        };
        let idx = match position(sibs, &cur) {
            Some(i) => i,
            None => {
                return None;
            },
        };
        if idx + 1 < sibs.len() {
            proof {
                assert(ids_view(sibs@)[idx + 1] == sibs@[idx + 1]@);
            }
            return Some(sibs[idx + 1].clone());
        }
        cur = p;
        fuel = fuel - 1;
    }
    None
}

/// One depth-first step (see `dfs_next`).
pub fn dfs_step(structure: &TreeStructure, start: &NodeId, last: &Option<NodeId>) -> (r: Option<NodeId>)
    requires
        structure.wf(),
    ensures
        opt_id_view(r) == dfs_next(structure@, start@, opt_id_view(*last)),
{
    match last {
        None => Some(start.clone()),
        Some(l) => {
            let children = match structure.get_children(l) {
                Some(c) => c,
                None => {
                    return None;
                },
            };
            if children.len() > 0 {
                proof {
                    assert(ids_view(children@)[0] == children@[0]@);
                }
                Some(children[0].clone())
            } else {
                next_sibling_above(structure, start, l)
            }
        },
    }
}

/// An iterator over the nodes below a start node, depth first or breadth
/// first, over a snapshot of the structure taken when it was made.
pub struct TreeIter {
    structure: TreeStructure,
    order: TraversalOrder,
    start: NodeId,
    queue: VecDeque<NodeId>,
    last_node: Option<NodeId>,
}

impl TreeIter {
    #[verifier::type_invariant]
    spec fn inv(self) -> bool {
        self.structure.wf()
    }

    /// The nodes of the snapshot.
    pub closed spec fn model(self) -> Map<IdV, NodeV> {
        self.structure@
    }

    /// The order of the walk.
    pub closed spec fn order(self) -> TraversalOrder {
        self.order
    }

    /// Where the walk starts.
    pub closed spec fn start(self) -> IdV {
        self.start@
    }

    /// The nodes still to visit, breadth first.
    pub closed spec fn queue(self) -> Seq<IdV> {
        ids_view(self.queue@)
    }

    /// The node visited last, depth first.
    pub closed spec fn last(self) -> Option<IdV> {
        opt_id_view(self.last_node)
    }

    /// A walk over `structure` from `start`.
    pub fn new(structure: TreeStructure, start: &NodeId, order: TraversalOrder) -> (r: TreeIter)
        requires
            structure.wf(),
        ensures
            r.model() == structure@,
            r.order() == order,
            r.start() == start@,
            r.last() is None,
            r.queue() == (match order {
                TraversalOrder::BreadthFirst => seq![start@],
                TraversalOrder::DepthFirst => Seq::<IdV>::empty(),
            }),
    {
        let mut queue: VecDeque<NodeId> = VecDeque::new();
        match order {
            TraversalOrder::BreadthFirst => queue.push_back(start.clone()),
            TraversalOrder::DepthFirst => {},
        }
        let r = TreeIter { structure, order, start: start.clone(), queue, last_node: None };
        proof {
            match order {
                TraversalOrder::BreadthFirst => {
                    assert(ids_view(queue@) =~= seq![start@]);
                },
                TraversalOrder::DepthFirst => {
                    assert(ids_view(queue@) =~= Seq::<IdV>::empty());
                },
            }
        }
        r
    }

    /// The next node of the walk: breadth first, see `bfs_next`; depth first,
    /// see `dfs_next`. `None` when the walk is over.
    pub fn next_id(&mut self) -> (r: Option<NodeId>)
        ensures
            final(self).model() == old(self).model(),
            final(self).order() == old(self).order(),
            final(self).start() == old(self).start(),
            old(self).order() is BreadthFirst ==> (opt_id_view(r), final(self).queue()) == bfs_next(
                old(self).model(),
                old(self).queue(),
            ) && final(self).last() == old(self).last(),
            old(self).order() is DepthFirst ==> opt_id_view(r) == dfs_next(
                old(self).model(),
                old(self).start(),
                old(self).last(),
            ) && final(self).queue() == old(self).queue() && final(self).last() == (if r is Some {
                opt_id_view(r)
            } else {
                old(self).last()
            }),
    {
        proof {
            use_type_invariant(&*self);
        }
        match self.order {
            TraversalOrder::BreadthFirst => {
                let mut queue: VecDeque<NodeId> = VecDeque::new();
                std::mem::swap(&mut queue, &mut self.queue);
                let ghost q0 = queue@;
                let current = match queue.pop_front() {
                    Some(c) => c,
                    None => {
                        self.queue = queue;
                        return None;
                    },
                };
                proof {
                    assert(ids_view(queue@) =~= ids_view(q0).drop_first());
                }
                match self.structure.get_children(&current) {
                    Some(children) => {
                        let ghost q1 = ids_view(queue@);
                        let mut i: usize = 0;
                        while i < children.len()
                            invariant
                                i <= children.len(),
                                ids_view(queue@) == q1 + ids_view(children@).take(i as int),
                            decreases children.len() - i,
                        {
                            let c = children[i].clone();
                            let ghost before = queue@;
                            queue.push_back(c);
                            proof {
                                assert(ids_view(queue@) =~= ids_view(before).push(children@[i as int]@));
                                assert(ids_view(children@).take(i + 1) =~= ids_view(children@).take(
                                    i as int,
                                ).push(children@[i as int]@));
                                assert(ids_view(queue@) =~= q1 + ids_view(children@).take(i + 1));
                            }
                            i = i + 1;
                        }
                        proof {
                            assert(ids_view(children@).take(i as int) =~= ids_view(children@));
                        }
                    },
                    None => {
                        proof {
                            assert(ids_view(queue@) =~= ids_view(queue@) + Seq::<IdV>::empty());
                        }
                    },
                }
                self.queue = queue;
                Some(current)
            },
            TraversalOrder::DepthFirst => {
                let r = dfs_step(&self.structure, &self.start, &self.last_node);
                match &r {
                    Some(n) => {
                        self.last_node = Some(n.clone());
                    },
                    None => {},
                }
                r
            },
        }
    }
}

/// An iterator over the whole tree, depth first from the root, over a
/// snapshot of the structure taken when it was made.
pub struct DfsIter {
    structure: TreeStructure,
    /// The node visited last, and how many steps were taken.
    walked: (Option<NodeId>, Ghost<nat>),
}

impl DfsIter {
    #[verifier::type_invariant]
    spec fn inv(self) -> bool {
        &&& self.structure.wf()
        &&& (self.walked.1@ == 0 <==> self.walked.0 is None)
        &&& self.walked.1@ > 0 ==> match dfs_walk(self.structure@, (self.walked.1@ - 1) as nat) {
            Some(x) => opt_id_view(self.walked.0) == Some(x),
            None => dfs_next(self.structure@, None, opt_id_view(self.walked.0)) is None,
        }
    }

    /// How many times `next_id` has been called.
    pub closed spec fn steps(self) -> nat {
        self.walked.1@
    }

    /// The nodes of the snapshot.
    pub closed spec fn model(self) -> Map<IdV, NodeV> {
        self.structure@
    }

    /// The node visited last.
    pub closed spec fn last(self) -> Option<IdV> {
        opt_id_view(self.walked.0)
    }

    /// A walk over `structure` from the root.
    pub fn new(structure: TreeStructure) -> (r: DfsIter)
        requires
            structure.wf(),
        ensures
            r.model() == structure@,
            r.last() is None,
            r.steps() == 0,
    {
        DfsIter { structure, walked: (None, Ghost(0)) }
    }

    /// The next node, depth first from the root (see `dfs_next`); `None`
    /// when the walk is over.
    pub fn next_id(&mut self) -> (r: Option<NodeId>)
        ensures
            final(self).model() == old(self).model(),
            opt_id_view(r) == dfs_next(old(self).model(), None, old(self).last()),
            final(self).last() == (if r is Some {
                opt_id_view(r)
            } else {
                old(self).last()
            }),
            opt_id_view(r) == dfs_walk(old(self).model(), old(self).steps()),
            final(self).steps() == old(self).steps() + 1,
    {
        proof {
            use_type_invariant(&*self);
        }
        let root = NodeId::Root;
        let r = dfs_step(&self.structure, &root, &self.walked.0);
        let ghost steps = self.walked.1@;
        let last = match &r {
            Some(n) => Some(n.clone()),
            None => self.walked.0.clone(),
        };
        proof {
            assert(r is Some ==> opt_id_view(last) == opt_id_view(r));
            assert(r is None ==> opt_id_view(last) == old(self).last());
        }
        self.walked = (last, Ghost(steps + 1));
        r
    }
}

} // verus!
