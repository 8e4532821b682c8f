use std::collections::HashMap;

use yrs::updates::decoder::Decode;
use yrs::{Doc, MapPrelim, MapRef, Out, ReadTxn, Transact, TransactionMut, Update};

use yrs_tree::error::TreeError;
use yrs_tree::init::{containers_buildable, NodeContainer};
use yrs_tree::iter::{DfsIter, TraversalOrder, TreeIter};
use yrs_tree::node::NodeId;
use yrs_tree::ops::{check_node_write, check_pending_write, check_poisoned, plan_get_data, plan_set_data, DataSlot};
use yrs_tree::tree_structure::TreeStructure;
use yrs_tree::update::NodeWrite;

/// A tree kept in step with a Yrs document: every change is written to the
/// document and the structure is rebuilt from what the document holds.
struct DocTree {
    doc: Doc,
    map: MapRef,
    structure: TreeStructure,
    poisoned: Option<String>,
    poison_events: usize,
}

fn read_containers<T: ReadTxn>(map: &MapRef, txn: &T) -> Vec<NodeContainer> {
    let mut out = Vec::new();
    for (id, value) in yrs::Map::iter(map, txn) {
        if let Out::YMap(container) = value {
            let em: HashMap<String, i64> = yrs::Map::get_as(&container, txn, "em").unwrap_or_default();
            let fi: String = yrs::Map::get_as(&container, txn, "fi").unwrap_or_default();
            out.push(NodeContainer::new(id, em.into_iter().collect(), &fi));
        }
    }
    out
}

fn write_node(map: &MapRef, txn: &mut TransactionMut, w: &NodeWrite) -> Result<(), TreeError> {
    match w {
        NodeWrite::Update { id, parent_key, edge, fi } => {
            let container = match yrs::Map::get(map, txn, &id.to_string()) {
                Some(Out::YMap(c)) => c,
                _ => return check_node_write(id, false, false),
            };
            let em = match yrs::Map::get(&container, txn, "em") {
                Some(Out::YMap(em)) => em,
                _ => return check_node_write(id, true, false),
            };
            yrs::Map::insert(&em, txn, parent_key.as_str(), *edge);
            yrs::Map::insert(&container, txn, "fi", fi.as_str());
        }
        NodeWrite::Create { id, parent_key, fi } => {
            let container = yrs::Map::insert(map, txn, id.to_string(), MapPrelim::default());
            let em = yrs::Map::insert(&container, txn, "em", MapPrelim::default());
            yrs::Map::insert(&em, txn, parent_key.as_str(), 0i64);
            yrs::Map::insert(&container, txn, "fi", fi.as_str());
        }
    }
    Ok(())
}

fn node_map<T: ReadTxn>(map: &MapRef, txn: &T, id: &NodeId) -> (bool, Option<MapRef>) {
    match yrs::Map::get(map, txn, &id.to_string()) {
        Some(Out::YMap(c)) => (true, Some(c)),
        Some(_) => (false, None),
        None => panic!("no container for node {}", id.to_string()),
    }
}

fn slot_of(value: Option<Out>) -> (DataSlot, Option<MapRef>) {
    match value {
        None => (DataSlot::Missing, None),
        Some(Out::YMap(m)) => (DataSlot::IsMap, Some(m)),
        Some(_) => (DataSlot::NotMap, None),
    }
}

impl DocTree {
    fn new(doc: Doc) -> DocTree {
        let map = doc.get_or_insert_map("test");
        let mut t = DocTree { doc, map, structure: TreeStructure::new(), poisoned: None, poison_events: 0 };
        t.rebuild();
        t
    }

    fn rebuild(&mut self) {
        let txn = self.doc.transact();
        let containers = read_containers(&self.map, &txn);
        drop(txn);
        assert!(containers_buildable(&containers));
        if let Err(e) = self.structure.init_from_containers(&containers) {
            self.poison(e.message());
        }
    }

    fn poison(&mut self, msg: String) {
        self.poisoned = Some(msg);
        self.poison_events += 1;
    }

    fn change(
        &mut self,
        op: impl FnOnce(&mut TreeStructure) -> Result<NodeWrite, TreeError>,
    ) -> Result<(), TreeError> {
        check_poisoned(&self.poisoned)?;
        if self.structure.has_pending_edge_map_updates() {
            let pending = self.structure.take_pending();
            let mut txn = self.doc.transact_mut();
            for (node, parent, value) in pending.iter() {
                let (container_is_map, container) = node_map(&self.map, &txn, node);
                let em = container.and_then(|c| match yrs::Map::get(&c, &txn, "em") {
                    Some(Out::YMap(em)) => Some(em),
                    _ => None,
                });
                if let Err(e) = check_pending_write(node, container_is_map, em.is_some()) {
                    if let TreeError::TreePoisoned(msg) = &e {
                        let msg = msg.clone();
                        drop(txn);
                        self.poison(msg);
                    }
                    return Err(e);
                }
                yrs::Map::insert(&em.unwrap(), &mut txn, parent.to_string(), *value);
            }
        }
        let w = op(&mut self.structure)?;
        let res = {
            let mut txn = self.doc.transact_mut();
            write_node(&self.map, &mut txn, &w)
        };
        self.rebuild();
        res
    }

    fn create(&mut self, parent: &str, id: &str) -> Result<(), TreeError> {
        let parent = NodeId::from_str(parent);
        let id = NodeId::from_str(id);
        self.change(|s| s.create_child_with_id(&parent, &id, None))
    }

    fn move_to(&mut self, id: &str, parent: &str, index: Option<usize>) -> Result<(), TreeError> {
        let parent = NodeId::from_str(parent);
        let id = NodeId::from_str(id);
        self.change(|s| s.update_node(&id, &parent, index))
    }

    fn create_at(&mut self, parent: &str, id: &str, index: usize) -> Result<(), TreeError> {
        let parent = NodeId::from_str(parent);
        let id = NodeId::from_str(id);
        self.change(|s| s.create_child_with_id(&parent, &id, Some(index)))
    }

    fn move_before(&mut self, id: &str, other: &str) -> Result<(), TreeError> {
        let other = NodeId::from_str(other);
        let id = NodeId::from_str(id);
        self.change(|s| s.move_before(&id, &other))
    }

    fn move_after(&mut self, id: &str, other: &str) -> Result<(), TreeError> {
        let other = NodeId::from_str(other);
        let id = NodeId::from_str(id);
        self.change(|s| s.move_after(&id, &other))
    }

    fn set(&mut self, id: &str, key: &str, value: &str) -> Result<(), TreeError> {
        check_poisoned(&self.poisoned)?;
        let id = NodeId::from_str(id);
        let mut txn = self.doc.transact_mut();
        let (container_is_map, container) = node_map(&self.map, &txn, &id);
        let (slot, data) = match &container {
            Some(c) => slot_of(yrs::Map::get(c, &txn, "data")),
            None => (DataSlot::Missing, None),
        };
        match plan_set_data(&id, container_is_map, slot) {
            Ok(create) => {
                let data = if create {
                    yrs::Map::insert(&container.unwrap(), &mut txn, "data", MapPrelim::default())
                } else {
                    data.unwrap()
                };
                yrs::Map::insert(&data, &mut txn, key, value);
                Ok(())
            }
            Err(e) => {
                drop(txn);
                if let TreeError::TreePoisoned(msg) = &e {
                    self.poison(msg.clone());
                }
                Err(e)
            }
        }
    }

    fn get(&mut self, id: &str, key: &str) -> Result<Option<Out>, TreeError> {
        check_poisoned(&self.poisoned)?;
        let id = NodeId::from_str(id);
        let txn = self.doc.transact();
        let (container_is_map, container) = node_map(&self.map, &txn, &id);
        let (slot, data) = match &container {
            Some(c) => slot_of(yrs::Map::get(c, &txn, "data")),
            None => (DataSlot::Missing, None),
        };
        match plan_get_data(&id, container_is_map, slot) {
            Ok(true) => Ok(yrs::Map::get(&data.unwrap(), &txn, key)),
            Ok(false) => Ok(None),
            Err(e) => {
                drop(txn);
                if let TreeError::TreePoisoned(msg) = &e {
                    self.poison(msg.clone());
                }
                Err(e)
            }
        }
    }

    fn traverse_from(&self, start: &str, order: TraversalOrder) -> Vec<String> {
        let mut it = TreeIter::new(self.structure.clone(), &NodeId::from_str(start), order);
        let mut out = Vec::new();
        while let Some(id) = it.next_id() {
            out.push(id.to_string());
        }
        out
    }

    fn dfs_with_depth(&self) -> Vec<(String, usize)> {
        let mut it = DfsIter::new(self.structure.clone());
        let mut out = Vec::new();
        while let Some(id) = it.next_id() {
            out.push((id.to_string(), self.structure.depth(&id)));
        }
        out
    }

    fn dfs(&self) -> Vec<String> {
        self.dfs_with_depth().into_iter().map(|(id, _)| id).collect()
    }
}

fn sync_docs(doc1: &Doc, doc2: &Doc) {
    let mut txn1 = doc1.transact_mut();
    let sv1 = txn1.state_vector();
    let mut txn2 = doc2.transact_mut();
    let sv2 = txn2.state_vector();
    let update1 = txn1.encode_diff_v1(&sv2);
    let update2 = txn2.encode_diff_v1(&sv1);
    txn1.apply_update(Update::decode_v1(&update2).unwrap()).unwrap();
    txn2.apply_update(Update::decode_v1(&update1).unwrap()).unwrap();
}

fn setup_tree() -> DocTree {
    let mut tree = DocTree::new(Doc::new());
    tree.create("<ROOT>", "1").unwrap();
    tree.create("<ROOT>", "2").unwrap();
    tree.create("<ROOT>", "3").unwrap();
    tree.create("1", "4").unwrap();
    tree.create("1", "5").unwrap();
    tree.create("2", "6").unwrap();
    tree.create("2", "7").unwrap();
    tree.create("2", "8").unwrap();
    tree.create("3", "9").unwrap();
    tree
}

#[test]
fn test_dfs() {
    let tree = setup_tree();
    let result = tree.traverse_from("<ROOT>", TraversalOrder::DepthFirst);
    assert_eq!(result, vec!["<ROOT>", "1", "4", "5", "2", "6", "7", "8", "3", "9"]);
}

#[test]
fn test_bfs() {
    let tree = setup_tree();
    let result = tree.traverse_from("<ROOT>", TraversalOrder::BreadthFirst);
    assert_eq!(result, vec!["<ROOT>", "1", "2", "3", "4", "5", "6", "7", "8", "9"]);
}

#[test]
fn test_start_at() {
    let tree = setup_tree();
    assert!(tree.structure.has_node(&NodeId::from_str("1")));
    let result = tree.traverse_from("1", TraversalOrder::DepthFirst);
    assert_eq!(result, vec!["1", "4", "5"]);
}

fn build_example(tree: &mut DocTree) {
    tree.create("<ROOT>", "1").unwrap();
    tree.create("<ROOT>", "2").unwrap();
    tree.create("1", "3").unwrap();
    tree.create("2", "4").unwrap();
    tree.move_to("3", "2", Some(0)).unwrap();
    tree.move_after("1", "2").unwrap();
    tree.move_before("4", "3").unwrap();
}

#[test]
fn it_works() {
    let mut tree = DocTree::new(Doc::new());
    build_example(&mut tree);
    let nodes = tree.dfs_with_depth();
    assert_eq!(
        nodes,
        vec![("<ROOT>", 0), ("2", 1), ("3", 2), ("4", 2), ("1", 1)]
            .iter()
            .map(|(id, depth)| (id.to_string(), *depth as usize))
            .collect::<Vec<_>>()
    );
}

#[test]
fn test_sync() {
    let doc1 = Doc::new();
    let doc2 = Doc::new();
    let mut tree1 = DocTree::new(doc1);
    let mut tree2 = DocTree::new(doc2);
    build_example(&mut tree1);

    let txn = tree1.doc.transact();
    let update = txn.encode_state_as_update_v1(&Default::default());
    drop(txn);
    tree2.doc.transact_mut().apply_update(Update::decode_v1(&update).unwrap()).unwrap();
    tree2.rebuild();

    assert!(tree1.structure.same_as(&tree2.structure));
    assert_eq!(tree1.structure.render(), tree2.structure.render());
}

#[test]
fn handles_moving_after_cycles() {
    let mut tree1 = DocTree::new(Doc::new());
    let mut tree2 = DocTree::new(Doc::new());

    tree1.create("<ROOT>", "C").unwrap();
    tree1.create("<ROOT>", "D").unwrap();
    tree1.create("C", "A").unwrap();
    tree1.create("C", "B").unwrap();

    sync_docs(&tree1.doc, &tree2.doc);
    tree1.rebuild();
    tree2.rebuild();

    // Peer 1 moves A under B; peer 2 moves B under A.
    tree1.move_to("A", "B", None).unwrap();
    assert!(tree2.structure.has_node(&NodeId::from_str("B")));
    assert!(tree2.structure.has_node(&NodeId::from_str("A")));
    tree2.move_to("B", "A", None).unwrap();

    sync_docs(&tree1.doc, &tree2.doc);
    tree1.rebuild();
    tree2.rebuild();

    tree1.move_to("B", "D", None).unwrap();

    assert_eq!(tree1.dfs(), vec!["<ROOT>", "C", "A", "D", "B"]);
}

#[test]
fn errors_creating_root() {
    let mut tree = DocTree::new(Doc::new());
    let res = tree.create("<ROOT>", "<ROOT>");
    assert!(res.is_err());
}

#[test]
fn handles_poisioning() {
    let mut tree = DocTree::new(Doc::new());
    tree.create("<ROOT>", "1").unwrap();
    tree.set("1", "test", "test").unwrap();

    {
        let map = tree.doc.get_or_insert_map("test");
        let mut txn = tree.doc.transact_mut();
        let Some(Out::YMap(map_ref)) = yrs::Map::get(&map, &txn, "1") else {
            panic!("Map not found");
        };
        // Change the data map to poison the tree
        yrs::Map::insert(&map_ref, &mut txn, "data", "asdfasdf");
    }
    tree.rebuild();

    let _data = tree.get("1", "test");

    assert_eq!(tree.poisoned.is_some(), true);
    assert_eq!(tree.poison_events > 0, true);
}

#[test]
fn stored_data_reads_back() {
    let mut tree = DocTree::new(Doc::new());
    tree.create("<ROOT>", "1").unwrap();
    assert!(tree.get("1", "missing").unwrap().is_none());
    tree.set("1", "my_key", "my_value").unwrap();
    let value = tree.get("1", "my_key").unwrap();
    assert_eq!(value.map(|v| v.to_string(&tree.doc.transact())), Some("my_value".to_string()));
}

#[test]
fn poisoned_tree_refuses_changes() {
    let mut tree = DocTree::new(Doc::new());
    tree.create("<ROOT>", "1").unwrap();
    tree.poison("broken".to_string());
    let res = tree.create("<ROOT>", "2");
    match res {
        Err(TreeError::TreePoisoned(msg)) => assert_eq!(msg, "broken"),
        other => panic!("unexpected result {:?}", other),
    }
}

#[test]
fn render_draws_branches() {
    let mut tree = DocTree::new(Doc::new());
    build_example(&mut tree);
    let text = tree.structure.render();
    assert_eq!(text, "<ROOT>\n├──2\n│  ├──3\n│  └──4\n└──1\n");
}

#[test]
fn moving_a_node_next_to_itself_is_a_cycle() {
    let mut tree = DocTree::new(Doc::new());
    tree.create("<ROOT>", "1").unwrap();
    match tree.move_before("1", "1") {
        Err(TreeError::Cycle(a, b)) => {
            assert_eq!(a.to_string(), "1");
            assert_eq!(b.to_string(), "1");
        }
        other => panic!("unexpected result {:?}", other),
    }
    match tree.move_after("1", "<ROOT>") {
        Err(TreeError::InvalidTarget(t)) => assert!(t.is_root()),
        other => panic!("unexpected result {:?}", other),
    }
}

#[test]
fn created_child_with_fresh_id_is_placed() {
    let mut tree = DocTree::new(Doc::new());
    let mut made = None;
    tree.change(|s| {
        let (id, w) = s.create_child(&NodeId::Root, None)?;
        made = Some(id);
        Ok(w)
    })
    .unwrap();
    let id = made.unwrap();
    assert_eq!(id.to_string().len(), 36);
    assert_eq!(tree.structure.parent_id(&id).map(|p| p.to_string()), Some("<ROOT>".to_string()));
    assert_eq!(tree.dfs(), vec!["<ROOT>".to_string(), id.to_string()]);
}

fn doc_example() -> DocTree {
    let mut tree = DocTree::new(Doc::new());
    tree.create("<ROOT>", "A").unwrap();
    tree.create("<ROOT>", "B").unwrap();
    tree.create("A", "C").unwrap();
    tree.create("A", "D").unwrap();
    tree.create("A", "E").unwrap();
    tree
}

fn children_of(tree: &DocTree, id: &str) -> Vec<String> {
    tree.structure.children_ids(&NodeId::from_str(id)).iter().map(|c| c.to_string()).collect()
}

#[test]
fn move_to_places_at_index() {
    let mut tree = doc_example();
    tree.move_to("B", "A", Some(1)).unwrap();
    assert_eq!(children_of(&tree, "<ROOT>"), vec!["A"]);
    assert_eq!(children_of(&tree, "A"), vec!["C", "B", "D", "E"]);
}

#[test]
fn move_before_places_before() {
    let mut tree = doc_example();
    tree.move_before("B", "E").unwrap();
    assert_eq!(children_of(&tree, "<ROOT>"), vec!["A"]);
    assert_eq!(children_of(&tree, "A"), vec!["C", "D", "B", "E"]);
}

#[test]
fn move_after_places_after() {
    let mut tree = doc_example();
    tree.move_after("B", "E").unwrap();
    assert_eq!(children_of(&tree, "<ROOT>"), vec!["A"]);
    assert_eq!(children_of(&tree, "A"), vec!["C", "D", "E", "B"]);
    assert_eq!(tree.structure.render(), "<ROOT>\n└──A\n   ├──C\n   ├──D\n   ├──E\n   └──B\n");
}

#[test]
fn moved_node_is_under_new_parent_after_rebuild() {
    let mut tree = doc_example();
    tree.move_to("A", "B", None).unwrap();
    assert_eq!(tree.structure.parent_id(&NodeId::from_str("A")).map(|p| p.to_string()), Some("B".to_string()));
    assert_eq!(tree.structure.parent_id(&NodeId::from_str("C")).map(|p| p.to_string()), Some("A".to_string()));
    assert_eq!(tree.structure.depth(&NodeId::from_str("C")), 3);
    assert!(!tree.structure.has_pending_edge_map_updates());
}

#[test]
fn walks_of_an_empty_tree_visit_the_root() {
    let tree = DocTree::new(Doc::new());
    assert_eq!(tree.traverse_from("<ROOT>", TraversalOrder::DepthFirst), vec!["<ROOT>"]);
    assert_eq!(tree.traverse_from("<ROOT>", TraversalOrder::BreadthFirst), vec!["<ROOT>"]);
    assert_eq!(tree.dfs(), vec!["<ROOT>"]);
    assert_eq!(tree.structure.render(), "<ROOT>\n");
}

#[test]
fn moving_under_a_descendant_is_repaired() {
    let mut tree = doc_example();
    tree.move_to("A", "C", None).unwrap();
    // A and C now name each other; A goes back under the root.
    assert_eq!(tree.dfs(), vec!["<ROOT>", "A", "C", "D", "E", "B"]);
    assert!(tree.structure.has_pending_edge_map_updates());
    // The repair is written with the next change and then stays.
    tree.move_to("B", "D", None).unwrap();
    assert_eq!(tree.dfs(), vec!["<ROOT>", "A", "C", "D", "B", "E"]);
    assert!(!tree.structure.has_pending_edge_map_updates());
}

#[test]
fn create_at_index_lands_there() {
    let mut tree = DocTree::new(Doc::new());
    tree.create("<ROOT>", "1").unwrap();
    tree.create("<ROOT>", "2").unwrap();
    tree.create_at("<ROOT>", "9", 0).unwrap();
    assert_eq!(children_of(&tree, "<ROOT>"), vec!["9", "1", "2"]);
    tree.create_at("<ROOT>", "5", 2).unwrap();
    assert_eq!(children_of(&tree, "<ROOT>"), vec!["9", "1", "5", "2"]);
    tree.create_at("<ROOT>", "7", 10).unwrap();
    assert_eq!(children_of(&tree, "<ROOT>"), vec!["9", "1", "5", "2", "7"]);
}

#[test]
fn move_to_index_counts_other_children() {
    let mut tree = doc_example();
    // C is first among A's children; moving it to position 1 puts it after D.
    tree.move_to("C", "A", Some(1)).unwrap();
    assert_eq!(children_of(&tree, "A"), vec!["D", "C", "E"]);
    tree.move_to("E", "A", Some(0)).unwrap();
    assert_eq!(children_of(&tree, "A"), vec!["E", "D", "C"]);
}

#[test]
fn moving_the_root_is_refused() {
    let mut tree = doc_example();
    let before = tree.structure.render();
    match tree.move_to("<ROOT>", "A", None) {
        Err(TreeError::UnsupportedOperation(msg)) => assert_eq!(msg, "Cannot move the root node"),
        other => panic!("unexpected result {:?}", other),
    }
    assert_eq!(tree.structure.render(), before);
    match tree.move_before("<ROOT>", "C") {
        Err(TreeError::UnsupportedOperation(msg)) => assert_eq!(msg, "Cannot move the root node"),
        other => panic!("unexpected result {:?}", other),
    }
}

#[test]
fn depth_first_walk_keeps_its_snapshot() {
    let mut tree = setup_tree();
    let mut it = DfsIter::new(tree.structure.clone());
    let first = it.next_id().unwrap();
    tree.create("4", "x").unwrap();
    let mut seen = vec![first.to_string()];
    while let Some(id) = it.next_id() {
        seen.push(id.to_string());
    }
    assert_eq!(seen, vec!["<ROOT>", "1", "4", "5", "2", "6", "7", "8", "3", "9"]);
    assert!(it.next_id().is_none());
    assert_eq!(tree.dfs(), vec!["<ROOT>", "1", "4", "x", "5", "2", "6", "7", "8", "3", "9"]);
}

#[test]
fn placing_under_a_missing_parent_is_refused() {
    let mut tree = doc_example();
    let before = tree.structure.render();
    match tree.move_to("C", "nowhere", None) {
        Err(TreeError::MissingParent(p)) => assert_eq!(p.to_string(), "nowhere"),
        other => panic!("unexpected result {:?}", other),
    }
    assert_eq!(tree.structure.render(), before);
    match tree.create("nowhere", "fresh") {
        Err(TreeError::MissingParent(p)) => assert_eq!(p.to_string(), "nowhere"),
        other => panic!("unexpected result {:?}", other),
    }
    assert_eq!(tree.structure.render(), before);
    assert!(!tree.structure.has_node(&NodeId::from_str("fresh")));
    let mut s = tree.structure.clone();
    match s.create_child(&NodeId::from_str("nowhere"), None) {
        Err(TreeError::MissingParent(p)) => assert_eq!(p.to_string(), "nowhere"),
        other => panic!("unexpected result {:?}", other),
    }
    assert_eq!(TreeError::MissingParent(NodeId::from_str("nowhere")).message(), "Requested parent node does not exist: nowhere");
}
