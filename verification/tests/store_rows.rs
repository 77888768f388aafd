use relanotes::models::{GroupElement, NodeElement, NodeTypeElement, SubGroupElement};
use relanotes::store::Store;

fn type_row(id: i32, name: &str, value: &str) -> NodeTypeElement {
    NodeTypeElement { id, name: name.to_string(), value: value.to_string() }
}

fn node_row(id: i32, linked: Option<i32>, name: &str) -> NodeElement {
    NodeElement {
        id,
        linked_to_id: linked,
        type_id: 1,
        name: name.to_string(),
        description: None,
        subgroup_id: 1,
    }
}

fn small_store() -> Store {
    Store::from_rows(
        vec![GroupElement { id: 1, name: "G".to_string() }],
        vec![SubGroupElement { id: 1, group_id: 1, name: "S".to_string() }],
        vec![type_row(1, "Regular", "regular")],
        Vec::new(),
    )
    .unwrap()
}

#[test]
fn from_rows_refuses_duplicate_ids() {
    let dup_groups = Store::from_rows(
        vec![
            GroupElement { id: 1, name: "a".to_string() },
            GroupElement { id: 1, name: "b".to_string() },
        ],
        Vec::new(),
        Vec::new(),
        Vec::new(),
    );
    assert!(dup_groups.is_none());

    let dup_nodes = Store::from_rows(
        Vec::new(),
        Vec::new(),
        Vec::new(),
        vec![node_row(1, None, "a"), node_row(1, None, "b")],
    );
    assert!(dup_nodes.is_none());
}

#[test]
fn from_rows_refuses_a_dangling_link() {
    let r = Store::from_rows(
        Vec::new(),
        Vec::new(),
        Vec::new(),
        vec![node_row(1, Some(7), "a")],
    );
    assert!(r.is_none());
}

#[test]
fn insert_node_enforces_the_foreign_keys() {
    let mut store = small_store();
    // Unknown type id.
    assert!(store.insert_node(None, 9, "a", None, 1).is_none());
    // Unknown subgroup id.
    assert!(store.insert_node(None, 1, "a", None, 9).is_none());
    // Unknown link target.
    assert!(store.insert_node(Some(7), 1, "a", None, 1).is_none());
    assert_eq!(store.nodes_rows().len(), 0);

    let id = store.insert_node(None, 1, "a", Some("d"), 1).unwrap();
    assert_eq!(id, 1);
    let id2 = store.insert_node(Some(id), 1, "b", None, 1).unwrap();
    assert_eq!(id2, 2);
    assert!(store.node_exists(id2));
}

#[test]
fn update_and_delete_node_rows() {
    let mut store = small_store();
    let id = store.insert_node(None, 1, "a", None, 1).unwrap();
    assert!(store.update_node(id, "renamed", Some("d")));
    let row = store.get_node(id).unwrap();
    assert_eq!(row.name, "renamed");
    assert_eq!(row.description, Some("d".to_string()));
    assert!(!store.update_node(9, "x", None));

    store.delete_node(id);
    assert!(store.get_node(id).is_none());
    // Deleting again changes nothing and reports nothing.
    store.delete_node(id);
    assert_eq!(store.nodes_rows().len(), 0);
}

#[test]
fn regular_name_search_spans_the_owning_group() {
    let mut store = Store::from_rows(
        vec![GroupElement { id: 1, name: "G".to_string() }, GroupElement {
            id: 2,
            name: "H".to_string(),
        }],
        vec![
            SubGroupElement { id: 1, group_id: 1, name: "S1".to_string() },
            SubGroupElement { id: 2, group_id: 1, name: "S2".to_string() },
            SubGroupElement { id: 3, group_id: 2, name: "T".to_string() },
        ],
        vec![type_row(1, "Regular", "regular")],
        Vec::new(),
    )
    .unwrap();
    let id = store.insert_node(None, 1, "x", None, 2).unwrap();
    // Same group, any subgroup: found.
    assert!(store.regular_name_exists(1, "x", None, 1));
    // Another group: not found.
    assert!(!store.regular_name_exists(2, "x", None, 1));
    // The row itself can be left out of the search.
    assert!(!store.regular_name_exists(1, "x", Some(id), 1));
    // Another type id does not count.
    assert!(!store.regular_name_exists(1, "x", None, 2));
}

#[test]
fn root_names_are_searched_store_wide() {
    let mut store = small_store();
    let id = store.insert_node(None, 1, "top", None, 1).unwrap();
    assert!(store.root_name_exists("top"));
    assert!(!store.root_name_exists("other"));
    let _ = store.insert_node(Some(id), 1, "nested", None, 1).unwrap();
    // A linked row is no root, whatever its name.
    assert!(!store.root_name_exists("nested"));
}

#[test]
fn group_rows_can_be_updated_and_removed() {
    let mut store = Store::new();
    let id = store.insert_group("a".to_string());
    assert_eq!(id, 1);
    assert!(store.update_group_name(id, "b"));
    assert_eq!(store.groups_rows()[0].name, "b");
    assert!(!store.update_group_name(9, "c"));
    store.delete_group(id);
    assert_eq!(store.groups_rows().len(), 0);
    store.delete_group(id);
    assert_eq!(store.groups_rows().len(), 0);
}
