//! Moving or creating a node: the new fractional index and edge value, and
//! what has to be written to the document.
use vstd::prelude::*;

use crate::edge_map::{edges_below_max, is_max_value};
use crate::error::TreeError;
use crate::fractional::{
    FractionalIndex, between_ok, hex_encode, new_after_bytes, new_before_bytes, new_between_bytes,
    terminator,
};
use crate::init::max_value;
use crate::iter::{children_or_empty, first_index, position};
use crate::model::{IdV, NodeV};
use crate::node::{NodeId, id_to_key};
use crate::ops::root_move_message;
use crate::order::{byte_codes, lex_lt};
use crate::tree_structure::{TreeStructure, ids_view, lemma_view_index, lemma_view_update};

verus! {

/// What placing a node writes to the document.
#[derive(Debug)]
pub enum NodeWrite {
    /// The node exists: its edge to `parent_key` gets value `edge`, and its
    /// fractional index becomes `fi`.
    Update { id: NodeId, parent_key: String, edge: i64, fi: String },
    /// The node is new: its container gets the edge map `{parent_key: 0}`
    /// and the fractional index `fi`.
    Create { id: NodeId, parent_key: String, fi: String },
}

/// The children of `parent` other than `id`, in order: the list that a
/// position for `id` refers to.
pub open spec fn others_of(m: Map<IdV, NodeV>, id: IdV, parent: IdV) -> Seq<IdV> {
    without(children_or_empty(m, parent), id)
}

/// The list `c` with the first `id` in it taken out.
pub open spec fn without(c: Seq<IdV>, id: IdV) -> Seq<IdV> {
    if c.contains(id) {
        c.remove(first_index(c, id))
    } else {
        c
    }
}

/// The position that `index` asks for among the other children: the end
/// when `None` or past the end.
pub open spec fn slot(m: Map<IdV, NodeV>, id: IdV, parent: IdV, index: Option<usize>) -> int {
    let len = others_of(m, id, parent).len();
    match index {
        Some(i) => if i > len {
            len as int
        } else {
            i as int
        },
        None => len as int,
    }
}

/// The index of the node at position `k` of `o`, where there is such a node.
pub open spec fn neighbour_fi(m: Map<IdV, NodeV>, o: Seq<IdV>, k: int) -> Option<Seq<u8>> {
    if 0 <= k < o.len() && m.contains_key(o[k]) {
        Some(m[o[k]].fi)
    } else {
        None
    }
}

/// The index of the neighbour that a node placed at `index` comes after.
pub open spec fn left_fi(m: Map<IdV, NodeV>, id: IdV, parent: IdV, index: Option<usize>) -> Option<Seq<u8>> {
    neighbour_fi(m, others_of(m, id, parent), slot(m, id, parent, index) - 1)
}

/// The index of the neighbour that a node placed at `index` comes before.
pub open spec fn right_fi(m: Map<IdV, NodeV>, id: IdV, parent: IdV, index: Option<usize>) -> Option<Seq<u8>> {
    neighbour_fi(m, others_of(m, id, parent), slot(m, id, parent, index))
}

/// The index `id` gets at position `index` (the end when `None` or past the
/// end) among the other children of `parent`: between its two neighbours,
/// after the one before it, before the one after it, or the default index
/// where it has none. Where no index can be asked for between the two
/// neighbours, it takes the index of the one after it.
pub open spec fn new_index(m: Map<IdV, NodeV>, id: IdV, parent: IdV, index: Option<usize>) -> Seq<u8> {
    match (left_fi(m, id, parent, index), right_fi(m, id, parent, index)) {
        (None, None) => seq![terminator()],
        (Some(l), None) => new_after_bytes(l),
        (None, Some(r)) => new_before_bytes(r),
        (Some(l), Some(r)) => if between_ok(l, r) {
            new_between_bytes(l, r)
        } else {
            r
        },
    }
}

/// An index can be found strictly between the neighbours at `index`: there
/// are not two of them, or one can be asked for between theirs.
pub open spec fn neighbours_apart(m: Map<IdV, NodeV>, id: IdV, parent: IdV, index: Option<usize>) -> bool {
    match (left_fi(m, id, parent, index), right_fi(m, id, parent, index)) {
        (Some(l), Some(r)) => between_ok(l, r),
        _ => true,
    }
}

/// `fi` comes after the neighbour before position `index` and before the
/// neighbour after it.
pub open spec fn index_fits(m: Map<IdV, NodeV>, id: IdV, parent: IdV, index: Option<usize>, fi: Seq<u8>) -> bool {
    &&& (left_fi(m, id, parent, index) matches Some(l) ==> lex_lt(byte_codes(l), byte_codes(fi)))
    &&& (right_fi(m, id, parent, index) matches Some(r) ==> lex_lt(byte_codes(fi), byte_codes(r)))
}

/// The index that moving next to a sibling gives: at position `k` of the
/// children of `parent` (the node itself included), the index of the child
/// found there, so that ties are settled by id; at the end, an index after
/// the last child; the default index where there is no such child.
pub open spec fn beside_index(m: Map<IdV, NodeV>, parent: IdV, k: int) -> Seq<u8> {
    let children = children_or_empty(m, parent);
    let len = children.len();
    if k >= len {
        if len > 0 && m.contains_key(children[len - 1]) {
            new_after_bytes(m[children[len - 1]].fi)
        } else {
            seq![terminator()]
        }
    } else if m.contains_key(children[k]) {
        m[children[k]].fi
    } else {
        seq![terminator()]
    }
}

/// The edge value that makes a parent the current one: one more than the
/// highest, or 0 in an empty edge map.
pub open spec fn next_edge(em: Map<Seq<char>, i64>) -> i64 {
    if em.len() == 0 {
        0
    } else {
        (max_value(em) + 1) as i64
    }
}

/// The nodes after placing `id` under `parent` with index `fi`: an
/// existing node gets that index, and `parent` becomes its highest edge;
/// a new node is left to the document.
pub open spec fn placed_nodes(m: Map<IdV, NodeV>, id: IdV, parent: IdV, fi: Seq<u8>) -> Map<IdV, NodeV> {
    if m.contains_key(id) {
        m.insert(
            id,
            NodeV {
                fi: fi,
                edges: m[id].edges.insert(id_to_key(parent), next_edge(m[id].edges)),
                ..m[id]
            },
        )
    } else {
        m
    }
}

/// `w` is what placing `id` under `parent` with index `fi` writes: for an
/// existing node, the new edge and the index; for a new node, a container
/// with its first edge and the index.
pub open spec fn is_placement(m: Map<IdV, NodeV>, id: IdV, parent: IdV, fi: Seq<u8>, w: NodeWrite) -> bool {
    if m.contains_key(id) {
        w matches NodeWrite::Update { id: i, parent_key, edge, fi: written } && i@ == id && parent_key@
            == id_to_key(parent) && edge == next_edge(m[id].edges) && written@ == hex_encode(fi)
    } else {
        w matches NodeWrite::Create { id: i, parent_key, fi: written } && i@ == id && parent_key@ == id_to_key(
            parent,
        ) && written@ == hex_encode(fi)
    }
}

/// `parent` is neither the root nor a node of `m`.
pub open spec fn parent_missing(m: Map<IdV, NodeV>, parent: IdV) -> bool {
    parent is Some && !m.contains_key(parent)
}

impl TreeStructure {
    /// The fractional index for `id` at position `index` among the other
    /// children of `parent` (see `new_index`); where an index can be found
    /// between the neighbours, it lies strictly between them.
    #[verifier::rlimit(50)]
    pub fn new_index_for(&self, id: &NodeId, parent: &NodeId, index: Option<usize>) -> (r: FractionalIndex)
        requires
            self.wf(),
        ensures
            r@ == new_index(self@, id@, parent@, index),
            neighbours_apart(self@, id@, parent@, index) ==> index_fits(self@, id@, parent@, index, r@),
    {
        let ghost m = self@;
        let mut others = self.children_ids(parent);
        let ghost c = ids_view(others@);
        match position(&others, id) {
            Some(k) => {
                let ghost before = others@;
                let _ = others.remove(k);
                proof {
                    assert(ids_view(others@) =~= c.remove(k as int));
                }
            },
            None => {},
        }
        let ghost o = ids_view(others@);
        assert(o == others_of(m, id@, parent@));
        let len = others.len();
        let i = match index {
            Some(i) => if i > len {
                len
            } else {
                i
            },
            None => len,
        };
        assert(i == slot(m, id@, parent@, index));
        let left = if i > 0 {
            proof {
                assert(o[i - 1] == others@[i - 1]@);
            }
            match self.get_node(&others[i - 1]) {
                Some(n) => Some(n.fi.clone()),
                None => None,
            }
        } else {
            None
        };
        let right = if i < len {
            proof {
                assert(o[i as int] == others@[i as int]@);
            }
            match self.get_node(&others[i]) {
                Some(n) => Some(n.fi.clone()),
                None => None,
            }
        } else {
            None
        };
        assert(match left {
            Some(l) => left_fi(m, id@, parent@, index) == Some(l@),
            None => left_fi(m, id@, parent@, index) is None,
        });
        assert(match right {
            Some(r) => right_fi(m, id@, parent@, index) == Some(r@),
            None => right_fi(m, id@, parent@, index) is None,
        });
        match (left, right) {
            (None, None) => FractionalIndex::default(),
            (Some(l), None) => FractionalIndex::new_after(&l),
            (None, Some(r)) => FractionalIndex::new_before(&r),
            (Some(l), Some(r)) => if FractionalIndex::between_ok(&l, &r) {
                FractionalIndex::new_between(&l, &r)
            } else {
                r
            },
        }
    }

    /// The fractional index for a node moved next to a sibling, at position
    /// `k` of the children of `parent` (see `beside_index`).
    pub fn beside_index_for(&self, parent: &NodeId, k: usize) -> (r: FractionalIndex)
        requires
            self.wf(),
        ensures
            r@ == beside_index(self@, parent@, k as int),
    {
        let children = self.children_ids(parent);
        let ghost cv = ids_view(children@);
        let len = children.len();
        if k >= len {
            if len > 0 {
                proof {
                    assert(cv[len - 1] == children@[len - 1]@);
                }
                match self.get_node(&children[len - 1]) {
                    Some(last) => FractionalIndex::new_after(&last.fi),
                    None => FractionalIndex::default(),
                }
            } else {
                FractionalIndex::default()
            }
        } else {
            proof {
                assert(cv[k as int] == children@[k as int]@);
            }
            match self.get_node(&children[k]) {
                Some(n) => n.fi.clone(),
                None => FractionalIndex::default(),
            }
        }
    }

    /// Places node `id` under `parent` with index `fi`: an existing node gets
    /// the index, and its edge to `parent` becomes its highest; a new node is
    /// left to the document. Returns what to write to the document.
    pub fn place(&mut self, id: &NodeId, parent: &NodeId, fi: FractionalIndex) -> (w: NodeWrite)
        requires
            old(self).wf(),
            old(self)@.contains_key(id@) ==> edges_below_max(old(self)@[id@].edges),
        ensures
            final(self).wf(),
            final(self).pending() == old(self).pending(),
            final(self)@ == placed_nodes(old(self)@, id@, parent@, fi@),
            is_placement(old(self)@, id@, parent@, fi@, w),
    {
        let fi_string = fi.to_string();
        let parent_key = parent.to_string();
        match self.find(id) {
            Some(i) => {
                let ghost old_nodes = self.nodes@;
                let ghost em = self@[id@].edges;
                proof {
                    lemma_view_index(self.nodes@, i as int);
                }
                let (_, new_edge) = self.nodes[i].edge_map.add_edge(parent_key.as_str());
                self.nodes[i].fi = fi;
                proof {
                    assert(self.nodes@ =~= old_nodes.update(i as int, self.nodes@[i as int]));
                    lemma_view_update(old_nodes, i as int, self.nodes@[i as int]);
                    if em.len() > 0 {
                        let top = crate::init::top_key(em);
                        assert(exists|kk: Seq<char>| crate::edge_map::is_top_key(em, kk)) by {
                            crate::edge_map::lemma_exists_top_key(em);
                        }
                        lemma_top_max(em, top);
                        assert(em[top] < i64::MAX);
                        let w = choose|kk: Seq<char>| #[trigger] em.contains_key(kk) && em[kk] == (new_edge - 1) as i64;
                        assert(em[top] <= (new_edge - 1) as i64);
                        assert(em[w] <= em[top]);
                    }
                    assert(new_edge == next_edge(em));
                }
                NodeWrite::Update { id: id.clone(), parent_key, edge: new_edge, fi: fi_string }
            },
            None => NodeWrite::Create { id: id.clone(), parent_key, fi: fi_string },
        }
    }

    /// Places node `id` under `parent` at position `index` among its other
    /// children (the end when `None`), with the index `new_index` gives; where
    /// an index can be found between the neighbours there, it lies strictly
    /// between them. The root cannot be moved: that gives an
    /// `UnsupportedOperation` error and changes nothing. A parent that is
    /// neither the root nor a node gives `MissingParent` and changes nothing.
    /// Returns what to write to the document.
    pub fn update_node(&mut self, id: &NodeId, parent: &NodeId, index: Option<usize>) -> (r: Result<NodeWrite, TreeError>)
        requires
            old(self).wf(),
            id@ is Some && old(self)@.contains_key(id@) ==> edges_below_max(old(self)@[id@].edges),
        ensures
            final(self).wf(),
            final(self).pending() == old(self).pending(),
            id@ is None ==> (r matches Err(e) && e matches TreeError::UnsupportedOperation(msg) && msg@
                == root_move_message()),
            id@ is None ==> final(self)@ == old(self)@,
            id@ is Some && parent_missing(old(self)@, parent@) ==> (r matches Err(e)
                && e matches TreeError::MissingParent(p) && p@ == parent@),
            r is Err ==> final(self)@ == old(self)@,
            id@ is Some && !parent_missing(old(self)@, parent@) ==> (r matches Ok(w) && is_placement(
                old(self)@,
                id@,
                parent@,
                new_index(old(self)@, id@, parent@, index),
                w,
            )),
            id@ is Some && !parent_missing(old(self)@, parent@) ==> final(self)@ == placed_nodes(
                old(self)@,
                id@,
                parent@,
                new_index(old(self)@, id@, parent@, index),
            ),
            neighbours_apart(old(self)@, id@, parent@, index) ==> index_fits(
                old(self)@,
                id@,
                parent@,
                index,
                new_index(old(self)@, id@, parent@, index),
            ),
    {
        let fi = self.new_index_for(id, parent, index);
        if id.is_root() {
            return Err(TreeError::UnsupportedOperation("Cannot move the root node".to_owned()));
        }
        if !self.has_node(parent) {
            return Err(TreeError::MissingParent(parent.clone()));
        }
        Ok(self.place(id, parent, fi))
    }
}

pub proof fn lemma_top_max(em: Map<Seq<char>, i64>, k: Seq<char>)
    requires
        crate::edge_map::is_top_key(em, k),
    ensures
        is_max_value(em, em[k]),
        max_value(em) == em[k],
{
    crate::edge_map::lemma_top_key_unique(em, k, crate::init::top_key(em));
    assert forall|k2: Seq<char>| #[trigger] em.contains_key(k2) implies em[k2] <= em[k] by {
        if k2 != k {
            assert(crate::edge_map::edge_before((k, em[k]), (k2, em[k2])));
        }
    }
}

} // verus!
