//! The operations of a tree and of its nodes on the cached structure: the
//! queries (parent, children, siblings, depth), creating and moving nodes,
//! and the checks that decide the errors of the document operations.
use vstd::prelude::*;

use crate::edge_map::edges_below_max;
use crate::error::TreeError;
use crate::iter::{children_or_empty, first_index, position};
use crate::model::{IdV, NodeV, parent_in};
use crate::node::{NodeId, id_to_key, is_hyphenated_uuid, is_uuid_form};
use crate::tree_structure::{TreeStructure, ids_view, opt_id_view, pending_view};
use crate::update::{NodeWrite, beside_index, is_placement, new_index, parent_missing, placed_nodes};

verus! {

/// The parent of a node as the tree reports it: the root has none.
pub open spec fn tree_parent(m: Map<IdV, NodeV>, x: IdV) -> Option<IdV> {
    if x is None {
        None
    } else {
        parent_in(m, x)
    }
}

/// The siblings of a node: the children of its parent, the node included;
/// none when it has no parent.
pub open spec fn siblings_of(m: Map<IdV, NodeV>, x: IdV) -> Seq<IdV> {
    match tree_parent(m, x) {
        Some(p) => children_or_empty(m, p),
        None => Seq::empty(),
    }
}

/// The number of links from `cur` (a parent, if any) up to the root, looking
/// at most `fuel` links further.
pub open spec fn levels(m: Map<IdV, NodeV>, cur: Option<IdV>, fuel: nat) -> nat
    decreases fuel,
{
    match cur {
        None => 0,
        Some(p) => if p is None || fuel == 0 {
            0
        } else {
            1 + levels(m, parent_in(m, p), (fuel - 1) as nat)
        },
    }
}

/// The depth of a node: 0 for the root; otherwise the number of parent links
/// up to the root, or up to a node without a parent, counting at most one
/// more link than there are nodes.
pub open spec fn depth_of(m: Map<IdV, NodeV>, x: IdV) -> nat {
    if x is None {
        0
    } else {
        1 + levels(m, parent_in(m, x), m.len())
    }
}

/// The message of the error for a new node with the root's id.
pub open spec fn root_id_message() -> Seq<char> {
    "<ROOT> cannot be used as a node ID"@
}

/// The message of the error for moving the root.
pub open spec fn root_move_message() -> Seq<char> {
    "Cannot move the root node"@
}

/// What a read finds where a node keeps its data.
#[derive(Clone, Copy, Debug)]
pub enum DataSlot {
    /// Nothing is there yet.
    Missing,
    /// A map, as it should be.
    IsMap,
    /// Something other than a map.
    NotMap,
}

/// A message about a node: `before`, the node's id, `after`.
pub open spec fn node_message(before: Seq<char>, id: IdV, after: Seq<char>) -> Seq<char> {
    before + id_to_key(id) + after
}

fn node_text(before: &str, id: &NodeId, after: &str) -> (r: String)
    ensures
        r@ == node_message(before@, id@, after@),
{
    let mut s = before.to_owned();
    s.append(id.to_string().as_str());
    s.append(after);
    s
}

/// The poison message for a malformed document: the text of a `BadYrsDoc`
/// error with the given detail.
pub open spec fn poison_message(detail: Seq<char>) -> Seq<char> {
    "Malformed Yrs document: "@ + detail
}

/// The error that poisons a tree because the document is malformed as
/// `detail` says.
fn poisoned_by(detail: String) -> (r: TreeError)
    ensures
        r matches TreeError::TreePoisoned(msg) && msg@ == poison_message(detail@),
{
    TreeError::TreePoisoned(TreeError::BadYrsDoc(detail).message())
}

/// Whether a tree may still use the document: an error with the poison
/// message when it is poisoned.
pub fn check_poisoned(poisoned: &Option<String>) -> (r: Result<(), TreeError>)
    ensures
        poisoned is None <==> r is Ok,
        poisoned matches Some(msg) ==> (r matches Err(e) && e matches TreeError::TreePoisoned(m)
            && m@ == msg@),
{
    match poisoned {
        Some(msg) => Err(TreeError::TreePoisoned(msg.clone())),
        None => Ok(()),
    }
}

/// The error of every move of the tree's root.
pub fn root_move_error() -> (r: TreeError)
    ensures
        r matches TreeError::UnsupportedOperation(msg) && msg@ == root_move_message(),
{
    TreeError::UnsupportedOperation("Cannot move the root node".to_owned())
}

/// Whether a list of nodes may be deleted: not when the root is among them.
pub fn check_deletable(ids: &Vec<NodeId>) -> (r: Result<(), TreeError>)
    ensures
        r is Ok <==> !ids_view(ids@).contains(None),
        r matches Err(e) ==> (e matches TreeError::InvalidTarget(t) && t@ is None),
{
    let mut i: usize = 0;
    while i < ids.len()
        invariant
            i <= ids.len(),
            forall|j: int| 0 <= j < i ==> ids_view(ids@)[j] != None::<Seq<char>>,
        decreases ids.len() - i,
    {
        if ids[i].is_root() {
            proof {
                assert(ids_view(ids@)[i as int] == None::<Seq<char>>);
            }
            return Err(TreeError::InvalidTarget(NodeId::Root));
        }
        i = i + 1;
    }
    proof {
        if ids_view(ids@).contains(None) {
            let j = choose|j: int| 0 <= j < ids_view(ids@).len() && ids_view(ids@)[j] == None::<Seq<char>>;
            assert(ids_view(ids@)[j] != None::<Seq<char>>);
        }
    }
    Ok(())
}

/// Writing a node's new place: the node's container and its edge map must
/// be maps.
pub fn check_node_write(id: &NodeId, container_is_map: bool, edges_are_map: bool) -> (r: Result<(), TreeError>)
    ensures
        r is Ok <==> container_is_map && edges_are_map,
        !container_is_map ==> (r matches Err(e) && e matches TreeError::BadYrsDoc(msg) && msg@
            == node_message("Node container for node "@, id@, " not found"@)),
        container_is_map && !edges_are_map ==> (r matches Err(e) && e matches TreeError::BadYrsDoc(msg)
            && msg@ == node_message("Edge map for node "@, id@, " not found"@)),
{
    if !container_is_map {
        Err(TreeError::BadYrsDoc(node_text("Node container for node ", id, " not found")))
    } else if !edges_are_map {
        Err(TreeError::BadYrsDoc(node_text("Edge map for node ", id, " not found")))
    } else {
        Ok(())
    }
}

/// Writing back a pending edge: the node's container and its edge map must
/// be maps, or the tree is poisoned.
pub fn check_pending_write(id: &NodeId, container_is_map: bool, edges_are_map: bool) -> (r: Result<(), TreeError>)
    ensures
        r is Ok <==> container_is_map && edges_are_map,
        !container_is_map ==> (r matches Err(e) && e matches TreeError::TreePoisoned(msg) && msg@
            == poison_message(node_message("Node is not a container: "@, id@, ""@))),
        container_is_map && !edges_are_map ==> (r matches Err(e) && e matches TreeError::TreePoisoned(msg)
            && msg@ == poison_message(node_message("Edge map is not a container: "@, id@, ""@))),
{
    if !container_is_map {
        Err(poisoned_by(node_text("Node is not a container: ", id, "")))
    } else if !edges_are_map {
        Err(poisoned_by(node_text("Edge map is not a container: ", id, "")))
    } else {
        Ok(())
    }
}

/// Storing data on a node: its container must be a map; where its data map
/// is missing one is made first (`Ok(true)`), where it is something else
/// the tree is poisoned.
pub fn plan_set_data(id: &NodeId, container_is_map: bool, slot: DataSlot) -> (r: Result<bool, TreeError>)
    ensures
        !container_is_map ==> (r matches Err(e) && e matches TreeError::BadYrsDoc(msg) && msg@
            == node_message("Node container for node "@, id@, " not found"@)),
        container_is_map ==> (match slot {
            DataSlot::Missing => r == Ok::<bool, TreeError>(true),
            DataSlot::IsMap => r == Ok::<bool, TreeError>(false),
            DataSlot::NotMap => r matches Err(e) && e matches TreeError::TreePoisoned(msg) && msg@
                == poison_message(node_message("Data map for node "@, id@, " is not a map"@)),
        }),
{
    if !container_is_map {
        return Err(TreeError::BadYrsDoc(node_text("Node container for node ", id, " not found")));
    }
    match slot {
        DataSlot::Missing => Ok(true),
        DataSlot::IsMap => Ok(false),
        DataSlot::NotMap => Err(poisoned_by(node_text("Data map for node ", id, " is not a map"))),
    }
}

/// Reading data from a node: a container that is not a map, or a data slot
/// that is not a map, poisons the tree; without a data map there is no
/// value (`Ok(false)`); otherwise the key is read (`Ok(true)`).
pub fn plan_get_data(id: &NodeId, container_is_map: bool, slot: DataSlot) -> (r: Result<bool, TreeError>)
    ensures
        !container_is_map ==> (r matches Err(e) && e matches TreeError::TreePoisoned(msg) && msg@
            == poison_message(node_message("Container for node "@, id@, " not found"@))),
        container_is_map ==> (match slot {
            DataSlot::Missing => r == Ok::<bool, TreeError>(false),
            DataSlot::IsMap => r == Ok::<bool, TreeError>(true),
            DataSlot::NotMap => r matches Err(e) && e matches TreeError::TreePoisoned(msg) && msg@
                == poison_message(node_message("Data container for node "@, id@, " is not a map"@)),
        }),
{
    if !container_is_map {
        return Err(poisoned_by(node_text("Container for node ", id, " not found")));
    }
    match slot {
        DataSlot::Missing => Ok(false),
        DataSlot::IsMap => Ok(true),
        DataSlot::NotMap => Err(poisoned_by(node_text("Data container for node ", id, " is not a map"))),
    }
}

impl TreeStructure {
    /// Whether the tree has a node with the given id; the root always.
    pub fn has_node(&self, id: &NodeId) -> (r: bool)
        requires
            self.wf(),
        ensures
            r == (id@ is None || self@.contains_key(id@)),
    {
        if id.is_root() {
            true
        } else {
            self.get_node(id).is_some()
        }
    }

    /// The parent of a node as the tree reports it (see `tree_parent`).
    pub fn parent_id(&self, id: &NodeId) -> (r: Option<NodeId>)
        requires
            self.wf(),
        ensures
            opt_id_view(r) == tree_parent(self@, id@),
    {
        if id.is_root() {
            None
        } else {
            match self.get_parent(id) {
                Some(p) => Some(p.clone()),
                None => None,
            }
        }
    }

    /// The children of a node, in order; none when it is not a node.
    pub fn children_ids(&self, id: &NodeId) -> (r: Vec<NodeId>)
        requires
            self.wf(),
        ensures
            ids_view(r@) == children_or_empty(self@, id@),
    {
        match self.get_children(id) {
            Some(c) => {
                let mut r: Vec<NodeId> = Vec::new();
                let mut i: usize = 0;
                while i < c.len()
                    invariant
                        i <= c.len(),
                        ids_view(r@) == ids_view(c@).take(i as int),
                    decreases c.len() - i,
                {
                    let ghost before = r@;
                    r.push(c[i].clone());
                    proof {
                        assert(ids_view(r@) =~= ids_view(before).push(c@[i as int]@));
                        assert(ids_view(c@).take(i + 1) =~= ids_view(c@).take(i as int).push(
                            c@[i as int]@,
                        ));
                    }
                    i = i + 1;
                }
                proof {
                    assert(ids_view(c@).take(i as int) =~= ids_view(c@));
                }
                r
            },
            None => {
                let r: Vec<NodeId> = Vec::new();
                assert(ids_view(r@) =~= Seq::<IdV>::empty());
                r
            },
        }
    }

    /// The siblings of a node (see `siblings_of`).
    pub fn siblings(&self, id: &NodeId) -> (r: Vec<NodeId>)
        requires
            self.wf(),
        ensures
            ids_view(r@) == siblings_of(self@, id@),
    {
        match self.parent_id(id) {
            Some(p) => self.children_ids(&p),
            None => {
                let r: Vec<NodeId> = Vec::new();
                assert(ids_view(r@) =~= Seq::<IdV>::empty());
                r
            },
        }
    }

    /// The depth of a node (see `depth_of`).
    pub fn depth(&self, id: &NodeId) -> (r: usize)
        requires
            self.wf(),
            self@.len() < usize::MAX,
        ensures
            r == depth_of(self@, id@),
    {
        if id.is_root() {
            return 0;
        }
        let ghost m = self@;
        let n = self.len();
        let mut depth: usize = 1;
        let mut fuel = n;
        let mut current = self.parent_id(id);
        while fuel > 0
            invariant
                self.wf(),
                m == self@,
                id@ is Some,
                n == m.len(),
                n < usize::MAX,
                fuel <= n,
                depth == 1 + (n - fuel),
                1 + levels(m, parent_in(m, id@), n as nat) == depth + levels(m, opt_id_view(current), fuel as nat),
            decreases fuel,
        {
            match current {
                Some(p) => {
                    if p.is_root() {
                        assert(opt_id_view(current) == Some(p@));
                        assert(levels(m, Some(p@), fuel as nat) == 0);
                        return depth;
                    }
                    depth = depth + 1;
                    current = self.parent_id(&p);
                },
                None => {
                    assert(levels(m, None, fuel as nat) == 0);
                    return depth;
                },
            }
            fuel = fuel - 1;
        }
        assert(levels(m, opt_id_view(current), 0) == 0);
        depth
    }
}

/// Where moving next to `other` puts a node: under `other`'s parent, with
/// the index found at `other`'s position plus `offset` among that parent's
/// children (see `beside_index`).
pub open spec fn relative_target(m: Map<IdV, NodeV>, other: IdV, offset: usize) -> (IdV, Seq<u8>) {
    let p = parent_in(m, other)->0;
    (p, beside_index(m, p, first_index(children_or_empty(m, p), other) + offset))
}

impl TreeStructure {
    /// Creates the node `id` as a child of `parent`, at position `index` (the
    /// end when `None`); returns what to write to the document. The root's
    /// id is refused, and so is a parent that is neither the root nor a node
    /// (`MissingParent`); either way nothing changes.
    pub fn create_child_with_id(&mut self, parent: &NodeId, id: &NodeId, index: Option<usize>) -> (r: Result<NodeWrite, TreeError>)
        requires
            old(self).wf(),
            old(self)@.contains_key(id@) ==> edges_below_max(old(self)@[id@].edges),
        ensures
            final(self).wf(),
            final(self).pending() == old(self).pending(),
            id@ is None ==> (r matches Err(e) && e matches TreeError::InvalidId(msg) && msg@ == root_id_message()),
            id@ is None ==> final(self)@ == old(self)@,
            id@ is Some && parent_missing(old(self)@, parent@) ==> (r matches Err(e)
                && e matches TreeError::MissingParent(p) && p@ == parent@),
            r is Err ==> final(self)@ == old(self)@,
            id@ is Some && !parent_missing(old(self)@, parent@) ==> (r matches Ok(w) && is_placement(
                old(self)@,
                id@,
                parent@,
                new_index(old(self)@, id@, parent@, index),
                w,
            )),
            id@ is Some && !parent_missing(old(self)@, parent@) ==> final(self)@ == placed_nodes(
                old(self)@,
                id@,
                parent@,
                new_index(old(self)@, id@, parent@, index),
            ),
    {
        if id.is_root() {
            return Err(TreeError::InvalidId("<ROOT> cannot be used as a node ID".to_owned()));
        }
        self.update_node(id, parent, index)
    }

    /// Moves the node `id` next to `other`: before it with `offset` 0, after
    /// it with `offset` 1 (see `relative_target`). Moving a node next to
    /// itself would make a cycle; the root has no place among siblings. The
    /// target must have a parent that lists it, so the node always goes under
    /// the root or an existing node and `MissingParent` cannot arise.
    pub fn move_relative(&mut self, id: &NodeId, other: &NodeId, offset: usize) -> (r: Result<NodeWrite, TreeError>)
        requires
            old(self).wf(),
            offset <= 1,
            id@ is Some && id@ != other@ && other@ is Some && old(self)@.contains_key(id@) ==> edges_below_max(
                old(self)@[id@].edges,
            ),
            id@ != other@ && other@ is Some ==> (parent_in(old(self)@, other@) matches Some(p)
                && children_or_empty(old(self)@, p).contains(other@)),
        ensures
            final(self).wf(),
            final(self).pending() == old(self).pending(),
            id@ == other@ ==> (r matches Err(e) && e matches TreeError::Cycle(a, b) && a@ == id@ && b@ == other@),
            id@ != other@ && other@ is None ==> (r matches Err(e) && e matches TreeError::InvalidTarget(t) && t@ is None),
            r is Err ==> final(self)@ == old(self)@,
            id@ is None && other@ is Some ==> (r matches Err(e) && e matches TreeError::UnsupportedOperation(msg)
                && msg@ == root_move_message()),
            id@ != other@ && other@ is Some ==> !parent_missing(
                old(self)@,
                relative_target(old(self)@, other@, offset).0,
            ),
            id@ is Some && id@ != other@ && other@ is Some ==> ({
                let (p, fi) = relative_target(old(self)@, other@, offset);
                r matches Ok(w) && is_placement(old(self)@, id@, p, fi, w) && final(self)@ == placed_nodes(
                    old(self)@,
                    id@,
                    p,
                    fi,
                )
            }),
    {
        if id.same(other) {
            return Err(TreeError::Cycle(id.clone(), other.clone()));
        }
        if other.is_root() {
            return Err(TreeError::InvalidTarget(NodeId::Root));
        }
        let p = self.parent_id(other).unwrap();
        let siblings = self.children_ids(&p);
        let idx = position(&siblings, other).unwrap();
        if id.is_root() {
            return Err(root_move_error());
        }
        let fi = self.beside_index_for(&p, idx + offset);
        Ok(self.place(id, &p, fi))
    }

    /// Moves the node `id` just before `other` (see `move_relative`).
    pub fn move_before(&mut self, id: &NodeId, other: &NodeId) -> (r: Result<NodeWrite, TreeError>)
        requires
            old(self).wf(),
            id@ is Some && id@ != other@ && other@ is Some && old(self)@.contains_key(id@) ==> edges_below_max(
                old(self)@[id@].edges,
            ),
            id@ != other@ && other@ is Some ==> (parent_in(old(self)@, other@) matches Some(p)
                && children_or_empty(old(self)@, p).contains(other@)),
        ensures
            final(self).wf(),
            final(self).pending() == old(self).pending(),
            id@ == other@ ==> (r matches Err(e) && e matches TreeError::Cycle(a, b) && a@ == id@ && b@ == other@),
            id@ != other@ && other@ is None ==> (r matches Err(e) && e matches TreeError::InvalidTarget(t) && t@ is None),
            r is Err ==> final(self)@ == old(self)@,
            id@ is None && other@ is Some ==> (r matches Err(e) && e matches TreeError::UnsupportedOperation(msg)
                && msg@ == root_move_message()),
            id@ != other@ && other@ is Some ==> !parent_missing(
                old(self)@,
                relative_target(old(self)@, other@, 0).0,
            ),
            id@ is Some && id@ != other@ && other@ is Some ==> ({
                let (p, fi) = relative_target(old(self)@, other@, 0);
                r matches Ok(w) && is_placement(old(self)@, id@, p, fi, w) && final(self)@ == placed_nodes(
                    old(self)@,
                    id@,
                    p,
                    fi,
                )
            }),
    {
        self.move_relative(id, other, 0)
    }

    /// Moves the node `id` just after `other` (see `move_relative`).
    pub fn move_after(&mut self, id: &NodeId, other: &NodeId) -> (r: Result<NodeWrite, TreeError>)
        requires
            old(self).wf(),
            id@ is Some && id@ != other@ && other@ is Some && old(self)@.contains_key(id@) ==> edges_below_max(
                old(self)@[id@].edges,
            ),
            id@ != other@ && other@ is Some ==> (parent_in(old(self)@, other@) matches Some(p)
                && children_or_empty(old(self)@, p).contains(other@)),
        ensures
            final(self).wf(),
            final(self).pending() == old(self).pending(),
            id@ == other@ ==> (r matches Err(e) && e matches TreeError::Cycle(a, b) && a@ == id@ && b@ == other@),
            id@ != other@ && other@ is None ==> (r matches Err(e) && e matches TreeError::InvalidTarget(t) && t@ is None),
            r is Err ==> final(self)@ == old(self)@,
            id@ is None && other@ is Some ==> (r matches Err(e) && e matches TreeError::UnsupportedOperation(msg)
                && msg@ == root_move_message()),
            id@ != other@ && other@ is Some ==> !parent_missing(
                old(self)@,
                relative_target(old(self)@, other@, 1).0,
            ),
            id@ is Some && id@ != other@ && other@ is Some ==> ({
                let (p, fi) = relative_target(old(self)@, other@, 1);
                r matches Ok(w) && is_placement(old(self)@, id@, p, fi, w) && final(self)@ == placed_nodes(
                    old(self)@,
                    id@,
                    p,
                    fi,
                )
            }),
    {
        self.move_relative(id, other, 1)
    }

    /// Whether edges added while repairing the tree still wait to be
    /// written to the document.
    pub fn has_pending_edge_map_updates(&self) -> (r: bool)
        ensures
            r == (self.pending().len() > 0),
    {
        self.pending_edge_map_updates.len() > 0
    }

    /// Hands out the pending edges (node, parent, edge value), in the order
    /// they were made, for writing to the document; none are left.
    pub fn take_pending(&mut self) -> (r: Vec<(NodeId, NodeId, i64)>)
        requires
            old(self).wf(),
        ensures
            final(self).wf(),
            final(self)@ == old(self)@,
            pending_view(r@) == old(self).pending(),
            final(self).pending().len() == 0,
    {
        let mut taken: Vec<(NodeId, NodeId, i64)> = Vec::new();
        std::mem::swap(&mut taken, &mut self.pending_edge_map_updates);
        proof {
            assert(self.pending() =~= Seq::<(IdV, IdV, i64)>::empty());
        }
        taken
    }
}

/// Every node whose id has the form of a fresh id (a hyphenated UUID) can
/// still have its edge values raised by one: a fresh id can only land on
/// such a node.
pub open spec fn fresh_ids_below_max(m: Map<IdV, NodeV>) -> bool {
    forall|x: IdV| #[trigger] m.contains_key(x) && (x matches Some(s) && is_hyphenated_uuid(s)) ==> edges_below_max(
        m[x].edges,
    )
}

impl TreeStructure {
    /// Whether the node `id` can be placed: a new node always, an existing
    /// one while its edge values can be raised.
    pub fn can_place(&self, id: &NodeId) -> (r: bool)
        requires
            self.wf(),
        ensures
            r == (self@.contains_key(id@) ==> edges_below_max(self@[id@].edges)),
    {
        match self.get_node(id) {
            Some(n) => n.edge_map.below_max(),
            None => true,
        }
    }

    /// Whether every node that a fresh id could name can be placed (see
    /// `fresh_ids_below_max`).
    pub fn fresh_ids_placeable(&self) -> (r: bool)
        requires
            self.wf(),
        ensures
            r == fresh_ids_below_max(self@),
    {
        let mut i: usize = 0;
        while i < self.nodes.len()
            invariant
                self.wf(),
                i <= self.nodes.len(),
                forall|j: int| 0 <= j < i ==> ((#[trigger] self.nodes@[j]).id@ matches Some(s)
                    && is_hyphenated_uuid(s)) ==> edges_below_max(self.nodes@[j]@.edges),
            decreases self.nodes.len() - i,
        {
            let fresh_form = match &self.nodes[i].id {
                NodeId::Id(s) => is_uuid_form(s.as_str()),
                NodeId::Root => false,
            };
            if fresh_form && !self.nodes[i].edge_map.below_max() {
                proof {
                    crate::tree_structure::lemma_view_index(self.nodes@, i as int);
                }
                return false;
            }
            i = i + 1;
        }
        proof {
            assert forall|x: IdV| #[trigger] self@.contains_key(x) && (x matches Some(s) && is_hyphenated_uuid(s))
                implies edges_below_max(self@[x].edges) by {
                let j = crate::tree_structure::index_of_id(self.nodes@, x);
                crate::tree_structure::lemma_view_index(self.nodes@, j);
            }
        }
        true
    }

    /// Creates a child of `parent` with a new id made from a UUID, at
    /// position `index` (the end when `None`); returns the id and what to
    /// write to the document. A parent that is neither the root nor a node
    /// gives `MissingParent` and changes nothing.
    pub fn create_child(&mut self, parent: &NodeId, index: Option<usize>) -> (r: Result<(NodeId, NodeWrite), TreeError>)
        requires
            old(self).wf(),
            fresh_ids_below_max(old(self)@),
        ensures
            final(self).wf(),
            final(self).pending() == old(self).pending(),
            parent_missing(old(self)@, parent@) ==> (r matches Err(e) && e matches TreeError::MissingParent(p)
                && p@ == parent@ && final(self)@ == old(self)@),
            !parent_missing(old(self)@, parent@) ==> (r matches Ok((id, w)) && (id@ matches Some(s)
                && is_hyphenated_uuid(s)) && is_placement(
                old(self)@,
                id@,
                parent@,
                new_index(old(self)@, id@, parent@, index),
                w,
            ) && final(self)@ == placed_nodes(
                old(self)@,
                id@,
                parent@,
                new_index(old(self)@, id@, parent@, index),
            )),
    {
        let id = NodeId::fresh();
        match self.update_node(&id, parent, index) {
            Ok(w) => Ok((id, w)),
            Err(e) => Err(e),
        }
    }
}

} // verus!
