use yrs_tree::edge_map::EdgeMap;
use yrs_tree::error::TreeError;
use yrs_tree::fractional::FractionalIndex;
use yrs_tree::init::NodeContainer;
use yrs_tree::node::NodeId;
use yrs_tree::ops::{check_deletable, check_node_write, check_pending_write, plan_get_data, plan_set_data, root_move_error, DataSlot};
use yrs_tree::tree_structure::TreeStructure;
use yrs_tree::update::NodeWrite;

fn container(id: &str, fi: &FractionalIndex, parent_history: Vec<(&str, i64)>) -> NodeContainer {
    NodeContainer::new(
        id,
        parent_history.into_iter().map(|(p, e)| (p.to_string(), e)).collect(),
        &fi.to_string(),
    )
}

fn id(s: &str) -> NodeId {
    NodeId::from_str(s)
}

fn children(tree: &TreeStructure, of: &str) -> Vec<String> {
    tree.get_node(&id(of)).unwrap().children.iter().map(|c| c.to_string()).collect()
}

fn parent(tree: &TreeStructure, of: &str) -> Option<String> {
    tree.get_node(&id(of)).unwrap().parent_id.as_ref().map(|p| p.to_string())
}

fn fi_of(tree: &TreeStructure, of: &str) -> String {
    tree.get_node(&id(of)).unwrap().fi.to_string()
}

fn indexes() -> (FractionalIndex, FractionalIndex, FractionalIndex, FractionalIndex) {
    let fi1 = FractionalIndex::default();
    let fi2 = FractionalIndex::new_after(&fi1);
    let fi3 = FractionalIndex::new_after(&fi2);
    let fi4 = FractionalIndex::new_after(&fi3);
    (fi1, fi2, fi3, fi4)
}

#[test]
fn handles_initial_data() {
    let (fi1, fi2, fi3, fi4) = indexes();
    // using fi2 first to test ordering
    let containers = vec![
        container("1", &fi2, vec![("<ROOT>", 0)]),
        container("2", &fi1, vec![("<ROOT>", 1)]),
        container("3", &fi3, vec![("1", 0)]),
        container("4", &fi4, vec![("2", 0)]),
    ];
    let mut tree = TreeStructure::new();
    tree.init_from_containers(&containers).unwrap();

    assert_eq!(tree.len(), 5); // 4 nodes + ROOT

    assert_eq!(children(&tree, "<ROOT>"), vec!["2", "1"]);

    assert_eq!(parent(&tree, "1"), Some("<ROOT>".to_string()));
    assert_eq!(children(&tree, "1"), vec!["3"]);
    assert_eq!(fi_of(&tree, "1"), fi2.to_string());

    assert_eq!(parent(&tree, "2"), Some("<ROOT>".to_string()));
    assert_eq!(children(&tree, "2"), vec!["4"]);
    assert_eq!(fi_of(&tree, "2"), fi1.to_string());

    assert_eq!(parent(&tree, "3"), Some("1".to_string()));
    assert!(children(&tree, "3").is_empty());
    assert_eq!(fi_of(&tree, "3"), fi3.to_string());

    assert_eq!(parent(&tree, "4"), Some("2".to_string()));
    assert!(children(&tree, "4").is_empty());
    assert_eq!(fi_of(&tree, "4"), fi4.to_string());
}

#[test]
fn handles_cycles() {
    let (fi1, fi2, fi3, fi4) = indexes();
    let containers = vec![
        container("1", &fi2, vec![("<ROOT>", 0)]),
        container("2", &fi1, vec![("<ROOT>", 1)]),
        container("3", &fi3, vec![("4", 1), ("2", 0)]),
        container("4", &fi4, vec![("3", 1), ("<ROOT>", 0)]),
    ];
    let mut tree = TreeStructure::new();
    tree.init_from_containers(&containers).unwrap();

    assert_eq!(tree.len(), 5); // 4 nodes + ROOT

    assert_eq!(children(&tree, "<ROOT>"), vec!["2", "1"]);

    assert_eq!(parent(&tree, "1"), Some("<ROOT>".to_string()));
    assert!(children(&tree, "1").is_empty());
    assert_eq!(fi_of(&tree, "1"), fi2.to_string());

    assert_eq!(parent(&tree, "2"), Some("<ROOT>".to_string()));
    assert_eq!(children(&tree, "2"), vec!["3"]);
    assert_eq!(fi_of(&tree, "2"), fi1.to_string());

    assert_eq!(parent(&tree, "3"), Some("2".to_string()));
    assert_eq!(children(&tree, "3"), vec!["4"]);
    assert_eq!(fi_of(&tree, "3"), fi3.to_string());

    assert_eq!(parent(&tree, "4"), Some("3".to_string()));
    assert!(children(&tree, "4").is_empty());
    assert_eq!(fi_of(&tree, "4"), fi4.to_string());
}

#[test]
fn repairing_a_cycle_leaves_pending_edges() {
    let (fi1, fi2, fi3, fi4) = indexes();
    let containers = vec![
        container("1", &fi2, vec![("<ROOT>", 0)]),
        container("2", &fi1, vec![("<ROOT>", 1)]),
        container("3", &fi3, vec![("4", 1), ("2", 0)]),
        container("4", &fi4, vec![("3", 1), ("<ROOT>", 0)]),
    ];
    let mut tree = TreeStructure::new();
    tree.init_from_containers(&containers).unwrap();
    // node 3 is reattached first (smallest id): to 2, with edge 2
    assert!(tree.has_pending_edge_map_updates());
    let pending: Vec<(String, String, i64)> =
        tree.take_pending().iter().map(|(a, b, v)| (a.to_string(), b.to_string(), *v)).collect();
    assert_eq!(pending, vec![("3".to_string(), "2".to_string(), 2)]);
    assert!(!tree.has_pending_edge_map_updates());
}

#[test]
fn written_repair_is_stable() {
    let (fi1, fi2, fi3, fi4) = indexes();
    let histories = vec![
        ("1", fi2.to_string(), vec![("<ROOT>", 0)]),
        ("2", fi1.to_string(), vec![("<ROOT>", 1)]),
        ("3", fi3.to_string(), vec![("4", 1), ("2", 0)]),
        ("4", fi4.to_string(), vec![("3", 1), ("<ROOT>", 0)]),
    ];
    let make = |extra: &Vec<(String, String, i64)>| {
        let mut cs = Vec::new();
        for (id, fi, edges) in histories.iter() {
            let mut edges: Vec<(String, i64)> = edges.iter().map(|(p, e)| (p.to_string(), *e)).collect();
            for (n, p, v) in extra {
                if n == id {
                    edges.push((p.clone(), *v));
                }
            }
            cs.push(NodeContainer::new(id, edges, fi));
        }
        cs
    };
    let mut first = TreeStructure::new();
    first.init_from_containers(&make(&vec![])).unwrap();
    let pending: Vec<(String, String, i64)> =
        first.take_pending().iter().map(|(a, b, v)| (a.to_string(), b.to_string(), *v)).collect();
    assert!(!pending.is_empty());
    let mut second = TreeStructure::new();
    second.init_from_containers(&make(&pending)).unwrap();
    assert!(!second.has_pending_edge_map_updates());
    assert!(second.same_as(&first));
}

#[test]
fn building_ignores_container_order() {
    let (fi1, fi2, fi3, fi4) = indexes();
    let make = |order: &[usize]| {
        let all = vec![
            container("1", &fi2, vec![("<ROOT>", 0)]),
            container("2", &fi1, vec![("<ROOT>", 1)]),
            container("3", &fi3, vec![("4", 1), ("2", 0)]),
            container("4", &fi4, vec![("3", 1), ("<ROOT>", 0)]),
        ];
        let mut cs = Vec::new();
        for &i in order {
            let c = &all[i];
            cs.push(NodeContainer::new(&c.id.to_string(), c.edge_map.entries(), &c.fi.to_string()));
        }
        let mut tree = TreeStructure::new();
        tree.init_from_containers(&cs).unwrap();
        tree.render()
    };
    assert_eq!(make(&[0, 1, 2, 3]), make(&[3, 2, 1, 0]));
    assert_eq!(make(&[0, 1, 2, 3]), make(&[2, 0, 3, 1]));
}

#[test]
fn every_built_node_reaches_the_root() {
    let (fi1, fi2, fi3, fi4) = indexes();
    let containers = vec![
        container("a", &fi1, vec![("b", 3), ("<ROOT>", 0)]),
        container("b", &fi2, vec![("c", 3), ("<ROOT>", 1)]),
        container("c", &fi3, vec![("a", 5), ("<ROOT>", 0)]),
        container("d", &fi4, vec![("a", 0)]),
    ];
    let mut tree = TreeStructure::new();
    tree.init_from_containers(&containers).unwrap();
    for n in ["a", "b", "c", "d"] {
        assert!(tree.can_reach(&id(n), &NodeId::Root), "{} is detached", n);
    }
}

#[test]
fn missing_edge_map_is_reported() {
    let (fi1, _, _, _) = indexes();
    let containers = vec![container("x", &fi1, vec![])];
    let mut tree = TreeStructure::new();
    match tree.init_from_containers(&containers) {
        Err(TreeError::BadYrsDoc(msg)) => assert_eq!(msg, "No parent set for node: x"),
        other => panic!("unexpected result {:?}", other),
    }
}

#[test]
fn failed_build_keeps_the_last_tree() {
    let (fi1, fi2, _, _) = indexes();
    let mut tree = TreeStructure::new();
    tree.init_from_containers(&vec![container("a", &fi1, vec![("<ROOT>", 0)])]).unwrap();
    let before = tree.render();
    let broken = vec![container("a", &fi1, vec![("<ROOT>", 0)]), container("b", &fi2, vec![])];
    assert!(tree.init_from_containers(&broken).is_err());
    assert_eq!(tree.render(), before);
    assert_eq!(tree.len(), 2);
}

#[test]
fn only_reattached_nodes_need_room_for_an_edge() {
    let (fi1, fi2, _, _) = indexes();
    // an attached node whose edge is at the maximum builds as it is
    let ok = vec![container("a", &fi1, vec![("<ROOT>", i64::MAX)])];
    assert!(yrs_tree::init::containers_buildable(&ok));
    let mut tree = TreeStructure::new();
    tree.init_from_containers(&ok).unwrap();
    assert_eq!(parent(&tree, "a"), Some("<ROOT>".to_string()));
    // a node that must be reattached cannot get its edge raised
    let stuck = vec![
        container("a", &fi1, vec![("b", i64::MAX), ("<ROOT>", 0)]),
        container("b", &fi2, vec![("a", 1)]),
    ];
    assert!(!yrs_tree::init::containers_buildable(&stuck));
}

#[test]
fn between_neighbours_index_is_strictly_between() {
    let (fi1, fi2, _, _) = indexes();
    assert!(FractionalIndex::between_ok(&fi1, &fi2));
    assert!(!FractionalIndex::between_ok(&fi2, &fi1));
    assert!(!FractionalIndex::between_ok(&fi1, &fi1));
    let mid = FractionalIndex::new_between(&fi1, &fi2);
    assert!(fi1.less_than(&mid) && mid.less_than(&fi2));
    let before = FractionalIndex::new_before(&fi1);
    assert!(before.less_than(&fi1));
}

#[test]
fn unknown_parent_is_reported() {
    let (fi1, _, _, _) = indexes();
    let containers = vec![container("x", &fi1, vec![("nowhere", 0)])];
    let mut tree = TreeStructure::new();
    match tree.init_from_containers(&containers) {
        Err(TreeError::MissingParent(p)) => assert_eq!(p.to_string(), "nowhere"),
        other => panic!("unexpected result {:?}", other),
    }
}

#[test]
fn detached_node_without_free_parent_is_reported() {
    let (fi1, fi2, _, _) = indexes();
    // x and y only name each other: neither has a parent to go to
    let containers = vec![container("x", &fi1, vec![("y", 0)]), container("y", &fi2, vec![("x", 0)])];
    let mut tree = TreeStructure::new();
    match tree.init_from_containers(&containers) {
        Err(TreeError::BadYrsDoc(msg)) => assert_eq!(msg, "No valid parent found for detached node: x"),
        other => panic!("unexpected result {:?}", other),
    }
}

#[test]
fn depth_is_one_more_than_parent_depth() {
    let (fi1, fi2, fi3, _) = indexes();
    let containers = vec![
        container("1", &fi1, vec![("<ROOT>", 0)]),
        container("2", &fi2, vec![("1", 0)]),
        container("3", &fi3, vec![("2", 0)]),
    ];
    let mut tree = TreeStructure::new();
    tree.init_from_containers(&containers).unwrap();
    assert_eq!(tree.depth(&NodeId::Root), 0);
    assert_eq!(tree.depth(&id("1")), 1);
    assert_eq!(tree.depth(&id("2")), 2);
    assert_eq!(tree.depth(&id("3")), 3);
    assert_eq!(tree.siblings(&id("2")).iter().map(|s| s.to_string()).collect::<Vec<_>>(), vec!["2"]);
    assert!(tree.siblings(&NodeId::Root).is_empty());
    assert_eq!(tree.parent_id(&NodeId::Root), None);
}

#[test]
fn edge_map_ranks_by_value_then_id() {
    let mut em = EdgeMap::new();
    assert_eq!(em.max_edge(), None);
    assert_eq!(em.add_edge("a"), ("a".to_string(), 0));
    assert_eq!(em.add_edge("b"), ("b".to_string(), 1));
    assert_eq!(em.add_edge("a"), ("a".to_string(), 2));
    assert_eq!(em.max_edge(), Some(("a".to_string(), 2)));
    em.insert("c".to_string(), 2);
    assert_eq!(em.max_edge(), Some(("a".to_string(), 2)));
    assert_eq!(
        em.edges_desc(),
        vec![("a".to_string(), 2), ("c".to_string(), 2), ("b".to_string(), 1)]
    );
    assert!(em.below_max());
    em.insert("z".to_string(), i64::MAX);
    assert!(!em.below_max());
}

#[test]
fn fractional_indexes_order_and_print() {
    let fi1 = FractionalIndex::default();
    assert_eq!(fi1.to_string(), "80");
    let fi2 = FractionalIndex::new_after(&fi1);
    assert_ne!(fi2.to_string(), fi1.to_string());
    assert!(fi1.less_than(&fi2));
    assert!(!fi2.less_than(&fi1));
    let back = FractionalIndex::from_string(&fi2.to_string()).unwrap();
    assert!(back.same(&fi2));
    assert!(FractionalIndex::from_string("zz").is_none());
    assert!(FractionalIndex::from_string_or_default("zz").same(&fi1));
}

#[test]
fn node_ids_convert_to_and_from_strings() {
    assert!(id("<ROOT>").is_root());
    assert_eq!(NodeId::Root.to_string(), "<ROOT>");
    assert_eq!(id("abc").to_string(), "abc");
    assert!(id("abc").eq_str("abc"));
    assert!(NodeId::Root.less_than(&id("a")));
    assert!(id("a").less_than(&id("b")));
    assert!(!id("b").less_than(&id("a")));
    let fresh = NodeId::fresh();
    assert!(!fresh.is_root());
    assert_eq!(fresh.to_string().len(), 36);
}

#[test]
fn error_messages() {
    assert_eq!(
        TreeError::Cycle(id("a"), id("b")).message(),
        "Operation would create a cycle: a -> b"
    );
    assert_eq!(TreeError::Cycle(id("a"), id("b")).debug_string(), "Cycle(a -> b)");
    assert_eq!(
        TreeError::MissingParent(id("p")).message(),
        "Requested parent node does not exist: p"
    );
    assert_eq!(TreeError::InvalidTarget(NodeId::Root).message(), "Invalid target: <ROOT>");
    assert_eq!(TreeError::InvalidTarget(NodeId::Root).debug_string(), "InvalidTarget(<ROOT>)");
    assert_eq!(
        root_move_error().message(),
        "Unsupported operation: Cannot move the root node"
    );
    assert_eq!(TreeError::InvalidId("x".to_string()).message(), "Invalid ID: x");
}

#[test]
fn deleting_the_root_is_refused() {
    assert!(check_deletable(&vec![id("a"), id("b")]).is_ok());
    match check_deletable(&vec![id("a"), NodeId::Root]) {
        Err(TreeError::InvalidTarget(t)) => assert!(t.is_root()),
        other => panic!("unexpected result {:?}", other),
    }
}

#[test]
fn document_checks_give_their_errors() {
    match check_node_write(&id("n"), false, true) {
        Err(TreeError::BadYrsDoc(msg)) => assert_eq!(msg, "Node container for node n not found"),
        other => panic!("unexpected result {:?}", other),
    }
    match check_node_write(&id("n"), true, false) {
        Err(TreeError::BadYrsDoc(msg)) => assert_eq!(msg, "Edge map for node n not found"),
        other => panic!("unexpected result {:?}", other),
    }
    match check_pending_write(&id("n"), false, false) {
        Err(TreeError::TreePoisoned(msg)) => {
            assert_eq!(msg, "Malformed Yrs document: Node is not a container: n")
        }
        other => panic!("unexpected result {:?}", other),
    }
    assert_eq!(plan_set_data(&id("n"), true, DataSlot::Missing).unwrap(), true);
    assert_eq!(plan_set_data(&id("n"), true, DataSlot::IsMap).unwrap(), false);
    match plan_set_data(&id("n"), true, DataSlot::NotMap) {
        Err(TreeError::TreePoisoned(msg)) => {
            assert_eq!(msg, "Malformed Yrs document: Data map for node n is not a map")
        }
        other => panic!("unexpected result {:?}", other),
    }
    assert_eq!(plan_get_data(&id("n"), true, DataSlot::Missing).unwrap(), false);
    match plan_get_data(&id("n"), false, DataSlot::Missing) {
        Err(TreeError::TreePoisoned(msg)) => {
            assert_eq!(msg, "Malformed Yrs document: Container for node n not found")
        }
        other => panic!("unexpected result {:?}", other),
    }
}

#[test]
fn placing_writes_edges_and_indexes() {
    let (fi1, fi2, _, _) = indexes();
    let containers = vec![
        container("1", &fi1, vec![("<ROOT>", 0)]),
        container("2", &fi2, vec![("<ROOT>", 4)]),
    ];
    let mut tree = TreeStructure::new();
    tree.init_from_containers(&containers).unwrap();
    // a new node at the end of the root's children: after the last one
    match tree.update_node(&id("3"), &NodeId::Root, None).unwrap() {
        NodeWrite::Create { id: n, parent_key, fi } => {
            assert_eq!(n.to_string(), "3");
            assert_eq!(parent_key, "<ROOT>");
            assert_eq!(fi, FractionalIndex::new_after(&fi2).to_string());
        }
        other => panic!("unexpected write {:?}", other),
    }
    // moving 2 under 1: its edge to 1 becomes one more than its highest
    match tree.update_node(&id("2"), &id("1"), None).unwrap() {
        NodeWrite::Update { id: n, parent_key, edge, fi } => {
            assert_eq!(n.to_string(), "2");
            assert_eq!(parent_key, "1");
            assert_eq!(edge, 5);
            assert_eq!(fi, "80");
        }
        other => panic!("unexpected write {:?}", other),
    }
    // a new node at position 0 gets an index before the first child's
    match tree.update_node(&id("4"), &NodeId::Root, Some(0)).unwrap() {
        NodeWrite::Create { fi, .. } => assert_eq!(fi, FractionalIndex::new_before(&fi1).to_string()),
        other => panic!("unexpected write {:?}", other),
    }
    match tree.create_child_with_id(&NodeId::Root, &NodeId::Root, None) {
        Err(TreeError::InvalidId(msg)) => assert_eq!(msg, "<ROOT> cannot be used as a node ID"),
        other => panic!("unexpected result {:?}", other),
    }
}
