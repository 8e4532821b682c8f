//! The text form of a tree: one line per node, depth first, each line drawn
//! with the branches that lead to the node.
use vstd::prelude::*;

use crate::iter::{children_or_empty, dfs_next, dfs_step};
use crate::model::{IdV, NodeV};
use crate::node::{NodeId, id_to_key};
use crate::ops::tree_parent;
use crate::tree_structure::{TreeStructure, ids_view, opt_id_view};

verus! {

/// `x` is the last child of its parent.
pub open spec fn is_last_child(m: Map<IdV, NodeV>, x: IdV) -> bool {
    match tree_parent(m, x) {
        Some(p) => children_or_empty(m, p).len() > 0 && children_or_empty(m, p).last() == x,
        None => false,
    }
}

/// The columns drawn left of the branch of `x`: one per ancestor below the
/// root, outermost first, a bar where that ancestor has siblings after it,
/// blank otherwise. At most `fuel` ancestors are drawn.
pub open spec fn columns(m: Map<IdV, NodeV>, x: IdV, fuel: nat) -> Seq<char>
    decreases fuel,
{
    match tree_parent(m, x) {
        None => Seq::empty(),
        Some(p) => if p is None || fuel == 0 {
            Seq::empty()
        } else {
            columns(m, p, (fuel - 1) as nat) + if is_last_child(m, p) {
                "   "@
            } else {
                "│  "@
            }
        },
    }
}

/// The prefix of the line of `x`: nothing for the root; otherwise the
/// columns, then a corner for a last child and a tee for any other.
pub open spec fn line_prefix(m: Map<IdV, NodeV>, x: IdV) -> Seq<char> {
    if x is None {
        Seq::empty()
    } else {
        columns(m, x, m.len()) + if is_last_child(m, x) {
            "└──"@
        } else {
            "├──"@
        }
    }
}

/// The nodes of a depth-first walk from `start`, after `last`, for at most
/// `fuel` steps.
pub open spec fn dfs_order(m: Map<IdV, NodeV>, start: IdV, last: Option<IdV>, fuel: nat) -> Seq<IdV>
    decreases fuel,
{
    if fuel == 0 {
        Seq::empty()
    } else {
        match dfs_next(m, start, last) {
            None => Seq::empty(),
            Some(y) => seq![y] + dfs_order(m, start, Some(y), (fuel - 1) as nat),
        }
    }
}

/// The lines of the nodes `xs`, each its prefix, its id and a line break.
pub open spec fn lines_of(m: Map<IdV, NodeV>, xs: Seq<IdV>) -> Seq<char>
    decreases xs.len(),
{
    if xs.len() == 0 {
        Seq::empty()
    } else {
        lines_of(m, xs.drop_last()) + line_prefix(m, xs.last()) + id_to_key(xs.last()) + "\n"@
    }
}

/// The text of the tree: the lines of the depth-first walk from the root,
/// which visits at most one node more than there are.
pub open spec fn tree_text(m: Map<IdV, NodeV>) -> Seq<char> {
    lines_of(m, dfs_order(m, None, None, m.len() + 1))
}

impl TreeStructure {
    /// Whether the node is the last child of its parent.
    fn last_child(&self, id: &NodeId) -> (r: bool)
        requires
            self.wf(),
        ensures
            r == is_last_child(self@, id@),
    {
        match self.parent_id(id) {
            Some(p) => {
                let sibs = self.children_ids(&p);
                if sibs.len() > 0 {
                    proof {
                        assert(ids_view(sibs@).last() == sibs@[sibs.len() - 1]@);
                    }
                    sibs[sibs.len() - 1].same(id)
                } else {
                    false
                }
            },
            None => false,
        }
    }

    /// The prefix of the line of a node (see `line_prefix`).
    pub fn line_prefix(&self, id: &NodeId) -> (r: String)
        requires
            self.wf(),
        ensures
            r@ == line_prefix(self@, id@),
    {
        if id.is_root() {
            return String::new();
        }
        let ghost m = self@;
        let n = self.len();
        let mut cols: Vec<bool> = Vec::new();
        let mut cur = id.clone();
        let mut fuel = n;
        let ghost mut acc: Seq<char> = Seq::empty();
        while fuel > 0
            invariant
                self.wf(),
                m == self@,
                n == m.len(),
                fuel <= n,
                columns(m, id@, n as nat) == columns(m, cur@, fuel as nat) + cols_text(cols@),
            ensures
                columns(m, id@, n as nat) == cols_text(cols@),
            decreases fuel,
        {
            let p = match self.parent_id(&cur) {
                Some(p) => p,
                None => {
                    proof {
                        assert(columns(m, cur@, fuel as nat) == Seq::<char>::empty());
                        assert(Seq::<char>::empty() + cols_text(cols@) =~= cols_text(cols@));
                    }
                    break;
                },
            };
            if p.is_root() {
                proof {
                    assert(columns(m, cur@, fuel as nat) == Seq::<char>::empty());
                    assert(Seq::<char>::empty() + cols_text(cols@) =~= cols_text(cols@));
                }
                break;
            }
            let last = self.last_child(&p);
            let ghost before = cols@;
            cols.push(last);
            proof {
                lemma_cols_text_push(before, last);
                assert(cols@ == before.push(last));
            }
            cur = p;
            fuel = fuel - 1;
            proof {
                if fuel == 0 {
                    assert(columns(m, cur@, 0) == Seq::<char>::empty());
                    assert(Seq::<char>::empty() + cols_text(cols@) =~= cols_text(cols@));
                }
            }
        }
        let mut s = String::new();
        proof {
            assert(cols@.subrange(cols.len() as int, cols.len() as int) =~= Seq::<bool>::empty());
        }
        let mut i = cols.len();
        while i > 0
            invariant
                i <= cols.len(),
                s@ == cols_text(cols@.subrange(i as int, cols.len() as int)),
            decreases i,
        {
            i = i - 1;
            proof {
                lemma_cols_text_front(cols@.subrange(i as int, cols.len() as int));
                assert(cols@.subrange(i as int, cols.len() as int).drop_first() =~= cols@.subrange(
                    i + 1,
                    cols.len() as int,
                ));
            }
            if cols[i] {
                s.append("   ");
            } else {
                s.append("│  ");
            }
        }
        proof {
            assert(cols@.subrange(0, cols.len() as int) =~= cols@);
        }
        if self.last_child(id) {
            s.append("└──");
        } else {
            s.append("├──");
        }
        s
    }

    /// The text of the tree (see `tree_text`).
    #[verifier::rlimit(40)]
    pub fn render(&self) -> (r: String)
        requires
            self.wf(),
            self@.len() < usize::MAX,
        ensures
            r@ == tree_text(self@),
    {
        let ghost m = self@;
        let n = self.len();
        let root = NodeId::Root;
        let mut out = String::new();
        let mut last: Option<NodeId> = None;
        let mut fuel = n + 1;
        let ghost mut done: Seq<IdV> = Seq::empty();
        while fuel > 0
            invariant
                self.wf(),
                m == self@,
                root@ == None::<Seq<char>>,
                n == m.len(),
                dfs_order(m, None, None, (n + 1) as nat) == done + dfs_order(m, None, opt_id_view(last), fuel as nat),
                out@ == lines_of(m, done),
                done.len() == 0 ==> last is None,
                done.len() > 0 ==> opt_id_view(last) == Some(done.last()),
            ensures
                out@ == lines_of(m, dfs_order(m, None, None, (n + 1) as nat)),
            decreases fuel,
        {
            let next = dfs_step(self, &root, &last);
            proof {
                assert(root@ == None::<Seq<char>>);
                assert(opt_id_view(next) == dfs_next(m, None, opt_id_view(last)));
                lemma_dfs_order_step(m, None, opt_id_view(last), fuel as nat);
            }
            match next {
                Some(y) => {
                    let prefix = self.line_prefix(&y);
                    out.append(prefix.as_str());
                    out.append(y.to_string().as_str());
                    out.append("\n");
                    proof {
                        let d2 = done.push(y@);
                        lemma_lines_of_push(m, done, y@);
                        assert(d2 + dfs_order(m, None, Some(y@), (fuel - 1) as nat) =~= done + (seq![y@]
                            + dfs_order(m, None, Some(y@), (fuel - 1) as nat)));
                        done = d2;
                    }
                    last = Some(y);
                },
                None => {
                    proof {
                        assert(dfs_next(m, None, opt_id_view(last)) is None);
                        assert(dfs_order(m, None, opt_id_view(last), fuel as nat) == Seq::<IdV>::empty());
                        assert(done + Seq::<IdV>::empty() =~= done);
                    }
                    break;
                },
            }
            fuel = fuel - 1;
            proof {
                if fuel == 0 {
                    assert(dfs_order(m, None, opt_id_view(last), 0) == Seq::<IdV>::empty());
                    assert(done + Seq::<IdV>::empty() =~= done);
                }
            }
        }
        out
    }
}

/// The columns for a list of flags, innermost first: each flag gives a
/// column, drawn outermost first.
pub open spec fn cols_text(flags: Seq<bool>) -> Seq<char>
    decreases flags.len(),
{
    if flags.len() == 0 {
        Seq::empty()
    } else {
        cols_text(flags.drop_first()) + if flags[0] {
            "   "@
        } else {
            "│  "@
        }
    }
}

proof fn lemma_cols_text_push(flags: Seq<bool>, b: bool)
    ensures
        cols_text(flags.push(b)) == (if b {
            "   "@
        } else {
            "│  "@
        }) + cols_text(flags),
    decreases flags.len(),
{
    if flags.len() == 0 {
        assert(flags.push(b).drop_first() =~= flags);
        assert(cols_text(flags) == Seq::<char>::empty());
    } else {
        lemma_cols_text_push(flags.drop_first(), b);
        assert(flags.push(b).drop_first() =~= flags.drop_first().push(b));
    }
}

proof fn lemma_dfs_order_step(m: Map<IdV, NodeV>, start: IdV, last: Option<IdV>, fuel: nat)
    requires
        fuel > 0,
    ensures
        dfs_order(m, start, last, fuel) == match dfs_next(m, start, last) {
            None => Seq::<IdV>::empty(),
            Some(y) => seq![y] + dfs_order(m, start, Some(y), (fuel - 1) as nat),
        },
{
}

proof fn lemma_lines_of_push(m: Map<IdV, NodeV>, xs: Seq<IdV>, y: IdV)
    ensures
        lines_of(m, xs.push(y)) == lines_of(m, xs) + line_prefix(m, y) + id_to_key(y) + "\n"@,
{
    assert(xs.push(y).drop_last() =~= xs);
}

proof fn lemma_cols_text_front(flags: Seq<bool>)
    requires
        flags.len() > 0,
    ensures
        cols_text(flags) == cols_text(flags.drop_first()) + if flags[0] {
            "   "@
        } else {
            "│  "@
        },
{
}

} // verus!
