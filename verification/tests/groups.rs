use relanotes::groups_mod::Groups as GroupsCollection;
use relanotes::groups_representation::Groups;
use relanotes::models::{GroupElement, NodeTypeElement, SubGroupElement};
use relanotes::store::Store;
use relanotes::subgroups_mod::SubGroups;

fn seeded_store() -> Store {
    let groups = vec![GroupElement { id: 1, name: "My first group".to_string() }];
    let subgroups = vec![
        SubGroupElement { id: 1, group_id: 1, name: "S1".to_string() },
        SubGroupElement { id: 2, group_id: 1, name: "S2".to_string() },
    ];
    let node_types = vec![
        NodeTypeElement { id: 1, name: "Regular".to_string(), value: "regular".to_string() },
        NodeTypeElement {
            id: 2,
            name: "Sticky Notes".to_string(),
            value: "sticky_notes".to_string(),
        },
        NodeTypeElement { id: 3, name: "Inherited".to_string(), value: "inherited".to_string() },
        NodeTypeElement { id: 4, name: "Symlinks".to_string(), value: "symlinks".to_string() },
    ];
    Store::from_rows(groups, subgroups, node_types, Vec::new()).unwrap()
}

#[test]
fn test_groups_basic_functionality() {
    let mut store = Store::new();
    let mut grps = Groups::new();
    assert!(grps.load_groups(&store).is_ok());
    assert!(!grps.group_exists("__test__temp"));
    let grp_res = grps.create_group(&mut store, "__test__temp");
    assert!(grp_res.is_ok());
    let id = grp_res.unwrap().id;
    assert!(grps.group_exists("__test__temp"));
    assert!(grps.delete_group(&mut store, &id).is_ok());
    assert!(!grps.group_exists("__test__temp"));
}

#[test]
fn load_groups_mirrors_the_store() {
    let mut store = Store::new();
    let a = store.insert_group("alpha".to_string());
    let b = store.insert_group("beta".to_string());
    assert_eq!(a, 1);
    assert_eq!(b, 2);
    let mut grps = Groups::new();
    assert!(grps.load_groups(&store).is_ok());
    assert!(grps.group_exists("alpha"));
    assert!(grps.group_exists("beta"));
    assert!(!grps.group_exists("gamma"));
}

#[test]
fn deleting_a_missing_group_reports_success() {
    let mut store = Store::new();
    let mut grps = Groups::new();
    assert!(grps.delete_group(&mut store, &42).is_ok());
}

#[test]
fn group_collection_create_and_delete() {
    let mut store = seeded_store();
    let mut groups = GroupsCollection::new();
    assert!(groups.load(&store).is_ok());
    assert!(groups.loaded);
    assert_eq!(groups.groups_map.len(), 1);

    let created_id = {
        let created = groups.create(&mut store, "second".to_string()).unwrap();
        assert_eq!(created.group.name, "second");
        created.group.id
    };
    assert_eq!(groups.groups_map.len(), 2);

    assert!(groups.delete(&mut store, created_id).is_ok());
    assert_eq!(groups.groups_map.len(), 1);
    // A second delete of the same id still reports success.
    assert!(groups.delete(&mut store, created_id).is_ok());
    assert_eq!(groups.groups_map.len(), 1);
}

#[test]
fn navigation_finds_a_loaded_subgroup() {
    let store = seeded_store();
    let mut groups = GroupsCollection::new();
    assert!(groups.load(&store).is_ok());
    // Subgroups are lazy: nothing is found before they are loaded.
    assert!(groups.get_group_from_subgroup(1).is_none());
    assert!(groups.get_subgroup_abstraction(1).is_none());

    assert!(groups.groups_map[0].subgroups.load(&store).is_ok());
    assert_eq!(groups.get_group_from_subgroup(1), Some(1));
    assert_eq!(groups.get_group_from_subgroup(2), Some(1));
    assert!(groups.get_group_from_subgroup(3).is_none());

    let sga = groups.get_subgroup_abstraction(2).unwrap();
    assert_eq!(sga.subgroup.id, 2);
    assert_eq!(sga.subgroup.name, "S2");

    let sga_mut = groups.get_mut_subgroup_abstraction(1).unwrap();
    assert_eq!(sga_mut.subgroup.id, 1);
    assert!(!sga_mut.nodes.loaded);
}

#[test]
fn save_persists_a_renamed_group() {
    let mut store = seeded_store();
    let mut groups = GroupsCollection::new();
    assert!(groups.load(&store).is_ok());
    groups.groups_map[0].group.name = "renamed".to_string();
    assert!(groups.groups_map[0].save(&mut store).is_ok());
    assert_eq!(store.groups_rows()[0].name, "renamed");
}

#[test]
fn subgroup_load_is_idempotent() {
    let store = seeded_store();
    let mut sgs = SubGroups::new(1);
    assert!(!sgs.loaded);
    assert!(sgs.load(&store).is_ok());
    assert!(sgs.loaded);
    assert_eq!(sgs.subgroups_map.len(), 2);
    assert!(sgs.load(&store).is_ok());
    assert_eq!(sgs.subgroups_map.len(), 2);
}

#[test]
fn subgroup_load_refuses_an_incomplete_registry() {
    let groups = vec![GroupElement { id: 1, name: "G".to_string() }];
    let subgroups = vec![SubGroupElement { id: 1, group_id: 1, name: "S".to_string() }];
    let node_types = vec![NodeTypeElement {
        id: 1,
        name: "Regular".to_string(),
        value: "regular".to_string(),
    }];
    let store = Store::from_rows(groups, subgroups, node_types, Vec::new()).unwrap();
    let mut sgs = SubGroups::new(1);
    assert!(sgs.load(&store).is_err());
    assert!(!sgs.loaded);
}
