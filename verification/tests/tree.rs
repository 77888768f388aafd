use relanotes::models::{GroupElement, NodeElement, NodeTypeElement, SubGroupElement};
use relanotes::validation_errors::RelanotesValidationRejection as R;
use relanotes::nodes_mod::{GraphNode, NodeType, NodesTree, RelanotesError};
use relanotes::store::Store;

const REGULAR: i32 = 1;
const STICKY: i32 = 2;
const INHERITED: i32 = 3;
const SYMLINK: i32 = 4;

fn node_types() -> Vec<NodeTypeElement> {
    vec![
        NodeTypeElement { id: 1, name: "Regular".to_string(), value: "regular".to_string() },
        NodeTypeElement {
            id: 2,
            name: "Sticky Notes".to_string(),
            value: "sticky_notes".to_string(),
        },
        NodeTypeElement { id: 3, name: "Inherited".to_string(), value: "inherited".to_string() },
        NodeTypeElement { id: 4, name: "Symlinks".to_string(), value: "symlinks".to_string() },
    ]
}

fn store_with_nodes(nodes: Vec<NodeElement>) -> Store {
    let groups = vec![GroupElement { id: 1, name: "G".to_string() }];
    let subgroups = vec![
        SubGroupElement { id: 1, group_id: 1, name: "S1".to_string() },
        SubGroupElement { id: 2, group_id: 1, name: "S2".to_string() },
    ];
    Store::from_rows(groups, subgroups, node_types(), nodes).unwrap()
}

fn row(id: i32, linked: Option<i32>, type_id: i32, name: &str, subgroup: i32) -> NodeElement {
    NodeElement {
        id,
        linked_to_id: linked,
        type_id,
        name: name.to_string(),
        description: None,
        subgroup_id: subgroup,
    }
}

fn loaded_tree(store: &Store, subgroup_id: i32) -> NodesTree {
    let mut tree = NodesTree::new(store, subgroup_id).unwrap();
    tree.load(store).unwrap();
    tree
}

#[test]
fn registry_construction_needs_all_four_kinds() {
    let groups = vec![GroupElement { id: 1, name: "G".to_string() }];
    let subgroups = vec![SubGroupElement { id: 1, group_id: 1, name: "S".to_string() }];
    let mut types = node_types();
    types.pop();
    let store = Store::from_rows(groups, subgroups, types, Vec::new()).unwrap();
    assert!(NodesTree::new(&store, 1).is_none());

    let full = store_with_nodes(Vec::new());
    let tree = NodesTree::new(&full, 1).unwrap();
    assert!(!tree.loaded);
    assert_eq!(tree.get_node_type_id_from_type(NodeType::Regular), REGULAR);
    assert_eq!(tree.get_node_type_id_from_type(NodeType::StickyNotes), STICKY);
    assert_eq!(tree.get_node_type_id_from_type(NodeType::Inherited), INHERITED);
    assert_eq!(tree.get_node_type_id_from_type(NodeType::SymLink), SYMLINK);
}

#[test]
fn load_attaches_children_regardless_of_row_order() {
    // The child row comes before its parent row.
    let store = store_with_nodes(vec![
        row(2, Some(1), INHERITED, "child", 1),
        row(1, None, REGULAR, "parent", 1),
        row(3, Some(1), STICKY, "note", 1),
    ]);
    let tree = loaded_tree(&store, 1);
    assert!(tree.loaded);
    assert_eq!(tree.get_roots(), vec![1]);
    assert_eq!(tree.get_node_loaded_children(&1), Some(vec![2, 3]));
    assert_eq!(tree.get_node_loaded_parent(&2), Some(Some(1)));
    assert_eq!(tree.get_node_loaded_parent(&3), Some(Some(1)));
    assert_eq!(tree.get_node_loaded_parent(&9), None);
    assert_eq!(tree.get_node_loaded_children_count(&1), Some(2));
    assert_eq!(tree.get_node_loaded_children_count(&9), None);
    assert!(tree.node_has_loaded_parent(2));
    assert!(!tree.node_has_loaded_parent(1));
}

#[test]
fn a_regular_cross_reference_carries_no_placement() {
    // A regular node's link is a free cross-reference, not a parent.
    let store = store_with_nodes(vec![
        row(1, None, REGULAR, "a", 1),
        row(2, Some(1), REGULAR, "b", 1),
    ]);
    let tree = loaded_tree(&store, 1);
    assert_eq!(tree.get_roots(), vec![1, 2]);
    assert_eq!(tree.get_node_loaded_children(&1), Some(vec![]));
    // Loaded, but with no placement parent.
    assert_eq!(tree.get_node_loaded_parent(&2), Some(None));
}

#[test]
fn roots_and_children_counts_partition_the_loaded_rows() {
    let store = store_with_nodes(vec![
        row(1, None, REGULAR, "a", 1),
        row(2, Some(1), INHERITED, "b", 1),
        row(3, Some(1), STICKY, "c", 1),
        row(4, Some(2), INHERITED, "d", 1),
        row(5, None, REGULAR, "e", 1),
        row(99, None, REGULAR, "far", 2),
        row(7, Some(99), INHERITED, "orphan", 1),
    ]);
    let n = 6;
    let tree = loaded_tree(&store, 1);
    let roots = tree.get_roots();
    // The orphan's parent is not loaded, so it stands as a root.
    assert_eq!(roots, vec![1, 5, 7]);
    let mut total: usize = 0;
    for id in [1, 2, 3, 4, 5, 7] {
        total += tree.get_node_loaded_children_count(&id).unwrap();
    }
    assert_eq!(roots.len() + total, n);
}

#[test]
fn adjacency_is_symmetric_after_load_and_create() {
    let store = store_with_nodes(vec![
        row(1, None, REGULAR, "a", 1),
        row(2, Some(1), INHERITED, "b", 1),
        row(3, Some(2), STICKY, "c", 1),
    ]);
    let tree = loaded_tree(&store, 1);
    for id in [1, 2, 3] {
        if let Some(Some(p)) = tree.get_node_loaded_parent(&id) {
            let children = tree.get_node_loaded_children(&p).unwrap();
            assert!(children.contains(&id));
        }
        for c in tree.get_node_loaded_children(&id).unwrap() {
            assert_eq!(tree.get_node_loaded_parent(&c), Some(Some(id)));
        }
    }
}

#[test]
fn creating_a_duplicate_regular_name_in_the_group_fails_across_subgroups() {
    // "taken" lives in subgroup 2; creating it in subgroup 1 of the
    // same group is still a duplicate.
    let store0 = store_with_nodes(vec![row(1, None, REGULAR, "taken", 2)]);
    let mut store = store0;
    let mut tree = loaded_tree(&store, 1);
    let r = tree.create_node(&mut store, "taken", None, None, 1, 1, REGULAR);
    assert!(matches!(
        r,
        Err(R::DuplicateRegularNode(_))
    ));
    // Nothing was inserted.
    assert_eq!(store.nodes_rows().len(), 1);
}

#[test]
fn a_named_symlink_is_rejected_before_its_target_is_even_checked() {
    let mut store = store_with_nodes(vec![row(1, None, REGULAR, "a", 1)]);
    let mut tree = loaded_tree(&store, 1);
    // The target sits inside the same subgroup, which would also be a
    // violation; the name check comes first.
    let r = tree.create_node(&mut store, "named", None, Some(1), 1, 1, SYMLINK);
    assert!(matches!(
        r,
        Err(R::SymLinkWithName)
    ));
}

#[test]
fn a_symlink_into_its_own_subgroup_is_rejected() {
    let mut store = store_with_nodes(vec![row(1, None, REGULAR, "a", 1)]);
    let mut tree = loaded_tree(&store, 1);
    let r = tree.create_node(&mut store, "", None, Some(1), 1, 1, SYMLINK);
    assert!(matches!(
        r,
        Err(R::SymLinkToSameSubgroup)
    ));
}

#[test]
fn a_symlink_to_another_subgroup_caches_the_source_name() {
    let mut store = store_with_nodes(vec![row(1, None, REGULAR, "elsewhere", 2)]);
    let mut tree = loaded_tree(&store, 1);
    let id = tree.create_node(&mut store, "", None, Some(1), 1, 1, SYMLINK).unwrap();
    assert_eq!(id, 2);
    // The symlink never has children and no loaded parent.
    assert_eq!(tree.get_node_loaded_children(&id), Some(vec![]));
    assert_eq!(tree.get_node_loaded_parent(&id), Some(None));
    // Reloading rebuilds it from the persisted row.
    let tree2 = loaded_tree(&store, 1);
    assert_eq!(tree2.get_roots(), vec![2]);
}

#[test]
fn create_then_fresh_load_rebuilds_the_same_adjacency() {
    let mut store = store_with_nodes(vec![
        row(1, None, REGULAR, "a", 1),
        row(2, Some(1), INHERITED, "b", 1),
    ]);
    let mut tree = loaded_tree(&store, 1);
    let id = tree.create_node(&mut store, "c", Some("d"), Some(1), 1, 1, STICKY).unwrap();
    assert_eq!(id, 3);

    let tree2 = loaded_tree(&store, 1);
    assert_eq!(tree.get_roots(), tree2.get_roots());
    for nid in [1, 2, 3] {
        assert_eq!(
            tree.get_node_loaded_children(&nid),
            tree2.get_node_loaded_children(&nid)
        );
        assert_eq!(
            tree.get_node_loaded_parent(&nid),
            tree2.get_node_loaded_parent(&nid)
        );
    }
}

#[test]
fn duplicate_inherited_sibling_scenario() {
    // Subgroup 1 initially holds regular node A (id 1, no parent).
    let mut store = store_with_nodes(vec![row(1, None, REGULAR, "A", 1)]);
    let mut tree = loaded_tree(&store, 1);

    let id = tree.create_node(&mut store, "B", None, Some(1), 1, 1, INHERITED).unwrap();
    assert_eq!(id, 2);
    assert_eq!(tree.get_node_loaded_children(&1), Some(vec![2]));
    assert_eq!(tree.get_node_loaded_parent(&2), Some(Some(1)));

    let second = tree.create_node(&mut store, "B", None, Some(1), 1, 1, INHERITED);
    assert!(matches!(
        second,
        Err(R::DuplicateInheritedNode(_))
    ));
    assert_eq!(tree.get_node_loaded_children(&1), Some(vec![2]));
}

#[test]
fn update_rewrites_name_and_description_in_place() {
    let mut store = store_with_nodes(vec![
        row(1, None, REGULAR, "a", 1),
        row(2, Some(1), INHERITED, "b", 1),
    ]);
    let mut tree = loaded_tree(&store, 1);
    let r = tree.update_name_and_description(
        &mut store,
        2,
        "renamed".to_string(),
        Some("text".to_string()),
        1,
    );
    assert!(r.is_ok());
    // The change is persisted, and adjacency stands as it was.
    let stored = store.get_node(2).unwrap();
    assert_eq!(stored.name, "renamed");
    assert_eq!(stored.description, Some("text".to_string()));
    assert_eq!(tree.get_node_loaded_parent(&2), Some(Some(1)));
    assert_eq!(tree.get_node_loaded_children(&1), Some(vec![2]));
}

#[test]
fn update_refuses_a_symlink_and_a_duplicate_sibling() {
    let mut store = store_with_nodes(vec![
        row(1, None, REGULAR, "far", 2),
        row(2, None, REGULAR, "a", 1),
        row(3, Some(2), INHERITED, "b", 1),
        row(4, Some(2), INHERITED, "c", 1),
        row(5, Some(1), SYMLINK, "", 1),
    ]);
    let mut tree = loaded_tree(&store, 1);
    // A symlink's name and description are immutable.
    let r = tree.update_name_and_description(&mut store, 5, "x".to_string(), None, 1);
    assert!(matches!(r, Err(relanotes::nodes_mod::RelanotesError::NodeMutationError(_))));
    // Renaming "c" to "b" collides with its sibling.
    let r = tree.update_name_and_description(&mut store, 4, "b".to_string(), None, 1);
    assert!(r.is_err());
    // Renaming "c" to itself is fine: the node is left out of the
    // duplicate check.
    let r = tree.update_name_and_description(&mut store, 4, "c".to_string(), None, 1);
    assert!(r.is_ok());
}

#[test]
fn validation_rejections_come_in_rule_order() {
    let mut store = store_with_nodes(vec![
        row(1, None, REGULAR, "a", 1),
        row(2, Some(1), STICKY, "s", 1),
    ]);
    let mut tree = loaded_tree(&store, 1);

    // Wrong subgroup scope comes before everything else.
    let r = tree.create_node(&mut store, "", None, None, 2, 1, REGULAR);
    assert!(matches!(r, Err(R::TryingToMutateOtherSubgroup { .. })));

    // Empty names.
    assert!(matches!(
        tree.create_node(&mut store, "", None, None, 1, 1, REGULAR),
        Err(R::EmptyName)
    ));
    assert!(matches!(
        tree.create_node(&mut store, "", None, Some(1), 1, 1, STICKY),
        Err(R::EmptyName)
    ));
    assert!(matches!(
        tree.create_node(&mut store, "", None, Some(1), 1, 1, INHERITED),
        Err(R::EmptyName)
    ));

    // Sticky notes: missing owner, unknown owner, duplicate sibling.
    assert!(matches!(
        tree.create_node(&mut store, "x", None, None, 1, 1, STICKY),
        Err(R::StickyNoteWithoutOwner)
    ));
    assert!(matches!(
        tree.create_node(&mut store, "x", None, Some(99), 1, 1, STICKY),
        Err(R::InvalidStickyNoteOwner)
    ));
    assert!(matches!(
        tree.create_node(&mut store, "s", None, Some(1), 1, 1, STICKY),
        Err(R::DuplicateStickyNote(_))
    ));

    // Inherited nodes: missing owner, unknown owner.
    assert!(matches!(
        tree.create_node(&mut store, "x", None, None, 1, 1, INHERITED),
        Err(R::InheritedNodeWithoutOwner)
    ));
    assert!(matches!(
        tree.create_node(&mut store, "x", None, Some(99), 1, 1, INHERITED),
        Err(R::InvalidInheritedNodeOwner)
    ));

    // Symlinks: description, missing target, target not in the store.
    assert!(matches!(
        tree.create_node(&mut store, "", Some("d"), Some(1), 1, 1, SYMLINK),
        Err(R::SymLinkWithDescription)
    ));
    assert!(matches!(
        tree.create_node(&mut store, "", None, None, 1, 1, SYMLINK),
        Err(R::SymLinkWithoutOwner)
    ));
    assert!(matches!(
        tree.create_node(&mut store, "", None, Some(99), 1, 1, SYMLINK),
        Err(R::InvalidSymLinkOwner)
    ));

    // An unregistered type id is a technical defect, not a rule.
    assert!(matches!(
        tree.create_node(&mut store, "x", None, None, 1, 1, 99),
        Err(R::TechnicalError(_))
    ));

    // Nothing above touched the store.
    assert_eq!(store.nodes_rows().len(), 2);
}

#[test]
fn sticky_duplicate_is_scoped_to_one_owner() {
    // The same sticky name under two different owners is acceptable.
    let mut store = store_with_nodes(vec![
        row(1, None, REGULAR, "a", 1),
        row(2, None, REGULAR, "b", 1),
        row(3, Some(1), STICKY, "note", 1),
    ]);
    let mut tree = loaded_tree(&store, 1);
    let r = tree.create_node(&mut store, "note", None, Some(2), 1, 1, STICKY);
    assert!(r.is_ok());
}

#[test]
fn validate_can_be_consulted_without_mutating() {
    let store = store_with_nodes(vec![row(1, None, REGULAR, "a", 1)]);
    let tree = loaded_tree(&store, 1);
    let ok = tree.validate_node_mutation_or_creation(
        &store,
        None,
        "fresh",
        None,
        None,
        1,
        1,
        relanotes::nodes_mod::NodeType::Regular,
    );
    assert!(ok.is_ok());
    let dup = tree.validate_node_mutation_or_creation(
        &store,
        None,
        "a",
        None,
        None,
        1,
        1,
        relanotes::nodes_mod::NodeType::Regular,
    );
    assert!(matches!(dup, Err(R::DuplicateRegularNode(_))));
    // Excluding the node itself clears the duplicate.
    let same = tree.validate_node_mutation_or_creation(
        &store,
        Some(1),
        "a",
        None,
        None,
        1,
        1,
        relanotes::nodes_mod::NodeType::Regular,
    );
    assert!(same.is_ok());
}

#[test]
fn graph_node_children_can_be_added_and_removed() {
    let store = store_with_nodes(Vec::new());
    let gn = GraphNode::new(&store, row(10, None, REGULAR, "x", 1), NodeType::Regular);
    let mut gn = gn.unwrap();
    gn.add_child(5);
    gn.add_child(6);
    gn.add_child(5);
    assert_eq!(gn.children, vec![5, 6, 5]);
    // Removal takes the first occurrence only.
    assert_eq!(gn.remove_child(5), Some(5));
    assert_eq!(gn.children, vec![6, 5]);
    assert_eq!(gn.remove_child(9), None);
    assert_eq!(gn.node.get_node_id(), 10);
    assert_eq!(gn.parent_node_id, None);
}

#[test]
fn wrapping_refuses_a_row_whose_required_link_is_missing() {
    let store = store_with_nodes(vec![row(1, None, REGULAR, "a", 1)]);
    assert!(GraphNode::new(&store, row(9, None, STICKY, "s", 1), NodeType::StickyNotes).is_none());
    assert!(
        GraphNode::new(&store, row(9, None, INHERITED, "i", 1), NodeType::Inherited).is_none()
    );
    // A symlink needs a source row to cache the name from.
    assert!(GraphNode::new(&store, row(9, Some(77), SYMLINK, "", 1), NodeType::SymLink).is_none());
    let ok = GraphNode::new(&store, row(9, Some(1), SYMLINK, "", 1), NodeType::SymLink).unwrap();
    match &ok.node {
        relanotes::nodes_mod::Node::SymLink { source_node_name, .. } => {
            assert_eq!(source_node_name, "a");
        },
        _ => panic!("expected a symlink"),
    }
}

#[test]
fn rejection_messages_carry_their_payloads() {
    assert_eq!(
        R::DuplicateRegularNode("n".to_string()).message(),
        "Duplicate regular node (n)"
    );
    assert_eq!(R::DuplicateStickyNote("x".to_string()).message(), "Duplicate sticky note (x)");
    assert_eq!(
        R::DuplicateInheritedNode("b".to_string()).message(),
        "Duplicate inherited node (b)"
    );
    assert_eq!(
        R::TryingToMutateOtherSubgroup { current: 1, checking: 52 }.message(),
        "Trying to mutate other subgroup (52)"
    );
    assert_eq!(R::LinkedToItself(-7).message(), "Linked to itself (-7)");
    assert_eq!(
        R::LinkedToItself(i32::MIN).message(),
        "Linked to itself (-2147483648)"
    );
    assert_eq!(
        R::LinkedToItself(i32::MAX).message(),
        "Linked to itself (2147483647)"
    );
    assert_eq!(R::EmptyName.message(), "The name is empty");
    assert_eq!(R::TechnicalError("boom".to_string()).message(), "Technical Error boom");
    assert_eq!(R::SymLinkToSameSubgroup.message(), "SymLink targetting to the same group");
}

#[test]
fn update_failures_carry_fixed_messages() {
    let mut store = store_with_nodes(vec![
        row(1, None, REGULAR, "far", 2),
        row(2, None, REGULAR, "a", 1),
        row(3, Some(2), INHERITED, "b", 1),
        row(4, Some(2), INHERITED, "c", 1),
        row(5, Some(1), SYMLINK, "", 1),
    ]);
    let mut tree = loaded_tree(&store, 1);
    match tree.update_name_and_description(&mut store, 9, "x".to_string(), None, 1) {
        Err(RelanotesError::NodeMutationError(m)) => assert_eq!(m, "the node is not loaded"),
        _ => panic!("a missing node must be refused"),
    }
    match tree.update_name_and_description(&mut store, 5, "x".to_string(), None, 1) {
        Err(RelanotesError::NodeMutationError(m)) => (
            assert_eq!(m, "Can't change name/description of the symlink")
        ),
        _ => panic!("a symlink must be refused"),
    }
    match tree.update_name_and_description(&mut store, 4, "b".to_string(), None, 1) {
        Err(RelanotesError::NodeMutationError(m)) => (
            assert_eq!(m, "Duplicate inherited node (b)")
        ),
        _ => panic!("a duplicate sibling must be refused"),
    }
}
