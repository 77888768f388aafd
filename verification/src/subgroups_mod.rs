//! Subgroups of one group, each owning the node tree of its scope,
//! loaded on demand.

use vstd::prelude::*;
use crate::models::{SubGroupElement, SubGroupRowV};
use crate::nodes_mod::{registry_complete, registry_of, NodesTree, RelanotesError, TreeV};
use crate::store::{grp_pred, subgroup_rows_view, Store};

verus! {

/// One subgroup row together with the node tree scoped to it.
pub struct SubGroupAbstraction {
    pub subgroup: SubGroupElement,
    pub nodes: NodesTree,
}

impl SubGroupAbstraction {
    /// The owned tree is well-formed and scoped to the subgroup's id.
    pub open spec fn wf(&self) -> bool {
        &&& self.nodes.wf()
        &&& self.nodes@.subgroup_id == self.subgroup@.id
    }

    /// Wraps a subgroup row with a fresh, unloaded tree scoped to it.
    /// Refuses a store whose node-type seed rows leave some kind
    /// without an id.
    pub fn new(store: &Store, subgroup: SubGroupElement) -> (r: Option<SubGroupAbstraction>)
        ensures
            r is Some <==> registry_complete(registry_of(store@.node_types)),
            r matches Some(a) ==> ({
                &&& a.wf()
                &&& a.subgroup@ == subgroup@
                &&& a.nodes@.nodes =~= Seq::<crate::nodes_mod::GraphNodeV>::empty()
                &&& a.nodes@.types == registry_of(store@.node_types)
                &&& !a.nodes@.loaded
            }),
    {
        match NodesTree::new(store, subgroup.id) {
            Some(t) => Some(SubGroupAbstraction { subgroup, nodes: t }),
            None => None,
        }
    }
}

/// The lazily loaded collection of one group's subgroups.
pub struct SubGroups {
    pub group_id: i32,
    pub subgroups_map: Vec<SubGroupAbstraction>,
    pub loaded: bool,
}

impl SubGroups {
    /// The id of the owning group.
    pub open spec fn owner_group_id(&self) -> int {
        self.group_id as int
    }

    /// Every loaded entry is well-formed.
    pub open spec fn wf(&self) -> bool {
        forall|i: int|
            0 <= i < self.subgroups_map@.len() ==> (#[trigger] self.subgroups_map@[i]).wf()
    }

    /// An empty, unloaded collection for one group.
    pub fn new(group_id: i32) -> (r: SubGroups)
        ensures
            r.wf(),
            r.owner_group_id() == group_id as int,
            r.subgroups_map@.len() == 0,
            !r.loaded,
    {
        SubGroups { group_id, subgroups_map: Vec::new(), loaded: false }
    }

    /// Loads the group's subgroup rows in one read and wraps each
    /// with a fresh, unloaded tree.  Replaces any previous content
    /// and sets the loaded flag.  Refuses, leaving the collection
    /// untouched, a store whose node-type seed rows leave some kind
    /// without an id.
    pub fn load(&mut self, store: &Store) -> (r: Result<(), RelanotesError>)
        requires
            old(self).wf(),
        ensures
            final(self).wf(),
            final(self).owner_group_id() == old(self).owner_group_id(),
            r is Ok <==> registry_complete(registry_of(store@.node_types)),
            r is Ok ==> ({
                let rows = store@.subgroups.filter(grp_pred(old(self).owner_group_id()));
                &&& final(self).subgroups_map@.len() == rows.len()
                &&& forall|i: int|
                    0 <= i < rows.len() ==> ({
                        &&& (#[trigger] final(self).subgroups_map@[i]).subgroup@ == rows[i]
                        &&& final(self).subgroups_map@[i].nodes@.nodes
                            =~= Seq::<crate::nodes_mod::GraphNodeV>::empty()
                        &&& !final(self).subgroups_map@[i].nodes@.loaded
                        &&& final(self).subgroups_map@[i].nodes@.types == registry_of(
                            store@.node_types,
                        )
                    })
                &&& final(self).loaded
            }),
            r is Err ==> (final(self).subgroups_map@ == old(self).subgroups_map@
                && final(self).loaded == old(self).loaded),
    {
        if !NodesTree::registry_is_complete(store) {
            return Err(RelanotesError::DBQueriesError);
        }
        let rows = store.subgroups_of_group(self.group_id);
        let ghost rowsv = subgroup_rows_view(rows@);
        let mut map: Vec<SubGroupAbstraction> = Vec::new();
        let mut i: usize = 0;
        while i < rows.len()
            invariant
                rowsv == subgroup_rows_view(rows@),
                rowsv == store@.subgroups.filter(grp_pred(old(self).owner_group_id())),
                self.owner_group_id() == old(self).owner_group_id(),
                self.subgroups_map@ == old(self).subgroups_map@,
                self.loaded == old(self).loaded,
                i <= rowsv.len(),
                map@.len() == i,
                registry_complete(registry_of(store@.node_types)),
                forall|k: int|
                    0 <= k < i ==> ({
                        &&& (#[trigger] map@[k]).wf()
                        &&& map@[k].subgroup@ == rowsv[k]
                        &&& map@[k].nodes@.nodes =~= Seq::<crate::nodes_mod::GraphNodeV>::empty()
                        &&& !map@[k].nodes@.loaded
                        &&& map@[k].nodes@.types == registry_of(store@.node_types)
                    }),
            decreases rowsv.len() - i,
        {
            match SubGroupAbstraction::new(store, rows[i].duplicate()) {
                Some(a) => {
                    map.push(a);
                },
                None => {
                    proof {
                        assert(false);
                    }
                    return Err(RelanotesError::DBQueriesError);
                },
            }
            i += 1;
        }
        self.subgroups_map = map;
        self.loaded = true;
        Ok(())
    }
}

} // verus!
