use relanotes::models::{GroupElement, NodeElement, NodeTypeElement, SubGroupElement};
use relanotes::nodes_representation::NodesRepresentation;
use relanotes::store::Store;

const REGULAR: i32 = 1;

fn seeded_store(nodes: Vec<NodeElement>) -> Store {
    let groups = vec![GroupElement { id: 1, name: "G".to_string() }];
    let subgroups = vec![SubGroupElement { id: 1, group_id: 1, name: "S".to_string() }];
    let node_types = vec![NodeTypeElement {
        id: 1,
        name: "Regular".to_string(),
        value: "regular".to_string(),
    }];
    Store::from_rows(groups, subgroups, node_types, nodes).unwrap()
}

fn row(id: i32, linked: Option<i32>, name: &str) -> NodeElement {
    NodeElement {
        id,
        linked_to_id: linked,
        type_id: REGULAR,
        name: name.to_string(),
        description: None,
        subgroup_id: 1,
    }
}

#[test]
fn two_pass_build_attaches_children_in_any_row_order() {
    let rep = NodesRepresentation::new(vec![
        row(3, Some(1), "late child"),
        row(1, None, "root"),
        row(2, Some(1), "early child"),
        row(4, Some(9), "orphan"),
    ]);
    assert_eq!(rep.get_roots(), vec![1, 4]);
    assert_eq!(rep.get_node_loaded_children(&1), Some(vec![3, 2]));
    assert_eq!(rep.get_node_loaded_parent(&3), Some(Some(1)));
    // The orphan is loaded but its link's target is not.
    assert_eq!(rep.get_node_loaded_parent(&4), Some(None));
    assert_eq!(rep.get_node_loaded_parent(&9), None);
    assert!(rep.node_has_loaded_parent(2));
    assert!(!rep.node_has_loaded_parent(4));
    assert_eq!(rep.get_node(&1).unwrap().name, "root");
    assert!(rep.get_node(&9).is_none());
}

#[test]
fn create_node_refuses_a_duplicate_rootless_name() {
    let mut store = seeded_store(vec![row(1, None, "taken")]);
    let mut rep = NodesRepresentation::new(vec![row(1, None, "taken")]);
    let r = rep.create_node(&mut store, "taken", None, None, 1, REGULAR);
    assert!(r.is_err());
    assert_eq!(store.nodes_rows().len(), 1);
}

#[test]
fn create_node_persists_and_attaches() {
    let mut store = seeded_store(vec![row(1, None, "root")]);
    let mut rep = NodesRepresentation::new(vec![row(1, None, "root")]);
    let id = rep.create_node(&mut store, "child", Some("d"), Some(1), 1, REGULAR).unwrap();
    assert_eq!(id, 2);
    assert_eq!(rep.get_node_loaded_children(&1), Some(vec![2]));
    assert_eq!(rep.get_node_loaded_parent(&2), Some(Some(1)));
    let stored = store.get_node(2).unwrap();
    assert_eq!(stored.name, "child");
    assert_eq!(stored.description, Some("d".to_string()));
    assert_eq!(stored.linked_to_id, Some(1));
}

#[test]
fn delete_node_refuses_a_row_with_children() {
    let mut store = seeded_store(vec![row(1, None, "root"), row(2, Some(1), "leaf")]);
    let mut rep = NodesRepresentation::new(vec![row(1, None, "root"), row(2, Some(1), "leaf")]);
    assert_eq!(rep.delete_node(&mut store, 1), None);
    assert_eq!(store.nodes_rows().len(), 2);

    assert_eq!(rep.delete_node(&mut store, 2), Some(2));
    assert_eq!(store.nodes_rows().len(), 1);
    assert_eq!(rep.get_node_loaded_children(&1), Some(vec![]));
    // The entry is gone from the adjacency too: it is neither
    // findable nor a root, and the partition stays consistent.
    assert!(rep.get_node(&2).is_none());
    assert_eq!(rep.get_roots(), vec![1]);
    assert_eq!(rep.delete_node(&mut store, 9), None);
    assert_eq!(rep.delete_node(&mut store, 2), None);
}

#[test]
fn renames_go_to_store_and_memory() {
    let mut store = seeded_store(vec![row(1, None, "old")]);
    let mut rep = NodesRepresentation::new(vec![row(1, None, "old")]);
    assert!(rep.set_node_name(&mut store, 1, "new").is_ok());
    assert_eq!(rep.get_node(&1).unwrap().name, "new");
    assert_eq!(store.get_node(1).unwrap().name, "new");
    // The description stands untouched by a rename.
    assert!(rep.set_node_description(&mut store, &1, Some("text")).is_ok());
    assert_eq!(rep.get_node(&1).unwrap().description, Some("text".to_string()));
    assert_eq!(store.get_node(1).unwrap().description, Some("text".to_string()));
    assert_eq!(store.get_node(1).unwrap().name, "new");
    assert!(rep.set_node_name(&mut store, 9, "x").is_err());
    assert!(rep.set_node_description(&mut store, &9, None).is_err());
}

#[test]
fn path_names_walk_loaded_ancestors_root_first() {
    let rep = NodesRepresentation::new(vec![
        row(1, None, "top"),
        row(2, Some(1), "middle"),
        row(3, Some(2), "bottom"),
    ]);
    assert_eq!(
        rep.get_node_loaded_path_names(&3),
        Some(vec!["top".to_string(), "middle".to_string()])
    );
    assert_eq!(rep.get_node_loaded_path_names(&1), Some(vec![]));
    assert_eq!(rep.get_node_loaded_path_names(&9), None);
}

#[test]
fn path_names_give_up_on_a_linked_cycle() {
    let rep = NodesRepresentation::new(vec![row(1, Some(2), "a"), row(2, Some(1), "b")]);
    assert_eq!(rep.get_node_loaded_path_names(&1), None);
}

#[test]
fn children_counts_match_children_lists() {
    let rep = NodesRepresentation::new(vec![
        row(1, None, "a"),
        row(2, Some(1), "b"),
        row(3, Some(1), "c"),
    ]);
    assert_eq!(rep.get_node_loaded_children_count(&1), Some(2));
    assert_eq!(rep.get_node_loaded_children_count(&2), Some(0));
    assert_eq!(rep.get_node_loaded_children_count(&9), None);
}
