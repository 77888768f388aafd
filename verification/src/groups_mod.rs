//! Groups, each owning a lazily loaded collection of subgroups.

use vstd::prelude::*;
use crate::models::{GroupElement, GroupRowV};
use crate::nodes_mod::RelanotesError;
use crate::store::{
    group_rows_view, group_row_index, has_group_row, remove_group_row, Store,
};
use crate::subgroups_mod::{SubGroupAbstraction, SubGroups};

verus! {

/// Whether entry `j` of group `i`'s loaded subgroups carries the
/// given subgroup id.
pub open spec fn subgroup_match(
    gs: Seq<GroupAbstraction>,
    i: int,
    j: int,
    subgroup_id: int,
) -> bool {
    &&& 0 <= i < gs.len()
    &&& 0 <= j < gs[i].subgroups.subgroups_map@.len()
    &&& gs[i].subgroups.subgroups_map@[j].subgroup@.id == subgroup_id
}

/// The index of the first group row with the given id (meaningful
/// when one is there).
pub open spec fn first_group_index(s: Seq<GroupRowV>, id: int) -> int
    decreases s.len(),
{
    if s.len() == 0 {
        0
    } else if s.first().id == id {
        0
    } else {
        1 + first_group_index(s.drop_first(), id)
    }
}

/// When a row with the id is there, its first index is a valid
/// index, carries the id, and nothing before it does.
pub proof fn lemma_first_group_index(s: Seq<GroupRowV>, id: int)
    requires
        has_group_row(s, id),
    ensures
        0 <= first_group_index(s, id) < s.len(),
        s[first_group_index(s, id)].id == id,
        forall|k: int| 0 <= k < first_group_index(s, id) ==> s[k].id != id,
    decreases s.len(),
{
    if s.first().id == id {
    } else {
        assert(has_group_row(s.drop_first(), id)) by {
            let w = choose|w: int| 0 <= w < s.len() && s[w].id == id;
            assert(s.drop_first()[w - 1].id == id);
        }
        lemma_first_group_index(s.drop_first(), id);
        assert forall|k: int| 0 <= k < first_group_index(s, id) implies s[k].id != id by {
            if k > 0 {
                assert(s.drop_first()[k - 1] == s[k]);
            }
        }
    }
}

/// One group row together with its subgroups.
pub struct GroupAbstraction {
    pub group: GroupElement,
    pub subgroups: SubGroups,
}

impl GroupAbstraction {
    /// The owned collection is well-formed and keyed to this group.
    pub open spec fn wf(&self) -> bool {
        &&& self.subgroups.wf()
        &&& self.subgroups.owner_group_id() == self.group@.id
    }

    /// Wraps a group row with an empty, unloaded subgroup collection.
    fn new(group: GroupElement) -> (r: GroupAbstraction)
        ensures
            r.wf(),
            r.group@ == group@,
            r.subgroups.subgroups_map@.len() == 0,
            !r.subgroups.loaded,
    {
        let subgroups = SubGroups::new(group.id);
        GroupAbstraction { group, subgroups }
    }

    /// Persists the group's current name.
    pub fn save(&self, store: &mut Store) -> (r: Result<(), RelanotesError>)
        requires
            old(store).wf(),
        ensures
            final(store).wf(),
            r is Ok,
            has_group_row(old(store)@.groups, self.group@.id) ==> final(store)@.groups
                =~= old(store)@.groups.update(
                group_row_index(old(store)@.groups, self.group@.id),
                (GroupRowV { id: self.group@.id, name: self.group@.name }),
            ),
            !has_group_row(old(store)@.groups, self.group@.id) ==> final(store)@.groups == old(
                store,
            )@.groups,
            final(store)@.subgroups == old(store)@.subgroups,
            final(store)@.node_types == old(store)@.node_types,
            final(store)@.nodes == old(store)@.nodes,
    {
        store.update_group_name(self.group.id, self.group.name.as_str());
        Ok(())
    }
}

/// The lazily loaded collection of groups.
pub struct Groups {
    pub groups_map: Vec<GroupAbstraction>,
    pub loaded: bool,
}

impl Groups {
    /// Every loaded entry is well-formed.
    pub open spec fn wf(&self) -> bool {
        forall|i: int|
            0 <= i < self.groups_map@.len() ==> (#[trigger] self.groups_map@[i]).wf()
    }

    /// The views of the loaded group rows, in load order.
    pub open spec fn rows(&self) -> Seq<GroupRowV> {
        Seq::new(self.groups_map@.len(), |i: int| self.groups_map@[i].group@)
    }

    /// An empty, unloaded collection.
    pub fn new() -> (r: Groups)
        ensures
            r.wf(),
            r.groups_map@.len() == 0,
            !r.loaded,
    {
        Groups { groups_map: Vec::new(), loaded: false }
    }

    /// Loads every persisted group row, each wrapped with an empty,
    /// unloaded subgroup collection.  Replaces any previous content
    /// and sets the loaded flag.
    pub fn load(&mut self, store: &Store) -> (r: Result<(), RelanotesError>)
        ensures
            final(self).wf(),
            r is Ok,
            final(self).rows() =~= store@.groups,
            forall|i: int|
                0 <= i < final(self).groups_map@.len() ==> (!(
                #[trigger] final(self).groups_map@[i]).subgroups.loaded
                    && final(self).groups_map@[i].subgroups.subgroups_map@.len() == 0),
            final(self).loaded,
    {
        let rows = store.groups_rows();
        let mut map: Vec<GroupAbstraction> = Vec::new();
        let mut i: usize = 0;
        while i < rows.len()
            invariant
                group_rows_view(rows@) == store@.groups,
                i <= rows@.len(),
                map@.len() == i,
                forall|k: int|
                    0 <= k < i ==> ({
                        &&& (#[trigger] map@[k]).wf()
                        &&& map@[k].group@ == store@.groups[k]
                        &&& !map@[k].subgroups.loaded
                        &&& map@[k].subgroups.subgroups_map@.len() == 0
                    }),
            decreases rows@.len() - i,
        {
            map.push(GroupAbstraction::new(rows[i].duplicate()));
            i += 1;
        }
        self.groups_map = map;
        self.loaded = true;
        Ok(())
    }

    /// The owning group of the loaded subgroup with the given id, as
    /// recorded on the subgroup row itself.
    pub fn get_group_from_subgroup(&self, subgroup_id: i32) -> (r: Option<i32>)
        ensures
            r is Some <==> exists|i: int, j: int|
                subgroup_match(self.groups_map@, i, j, subgroup_id as int),
            r matches Some(g) ==> exists|i: int, j: int|
                subgroup_match(self.groups_map@, i, j, subgroup_id as int) && g as int
                    == self.groups_map@[i].subgroups.subgroups_map@[j].subgroup@.group_id,
    {
        let mut i: usize = 0;
        while i < self.groups_map.len()
            invariant
                i <= self.groups_map@.len(),
                forall|i2: int, j2: int|
                    0 <= i2 < i ==> !subgroup_match(
                        self.groups_map@,
                        i2,
                        j2,
                        subgroup_id as int,
                    ),
            decreases self.groups_map@.len() - i,
        {
            let sgs = &self.groups_map[i].subgroups.subgroups_map;
            let mut j: usize = 0;
            while j < sgs.len()
                invariant
                    i < self.groups_map@.len(),
                    sgs@ == self.groups_map@[i as int].subgroups.subgroups_map@,
                    j <= sgs@.len(),
                    forall|j2: int|
                        0 <= j2 < j ==> !subgroup_match(
                            self.groups_map@,
                            i as int,
                            j2,
                            subgroup_id as int,
                        ),
                decreases sgs@.len() - j,
            {
                if sgs[j].subgroup.id == subgroup_id {
                    proof {
                        assert(subgroup_match(
                            self.groups_map@,
                            i as int,
                            j as int,
                            subgroup_id as int,
                        ));
                    }
                    return Some(sgs[j].subgroup.group_id);
                }
                j += 1;
            }
            i += 1;
        }
        None
    }

    /// The loaded subgroup abstraction with the given id, if one is
    /// loaded under some group.
    pub fn get_subgroup_abstraction(&self, subgroup_id: i32) -> (r: Option<
        &SubGroupAbstraction,
    >)
        ensures
            r is Some <==> exists|i: int, j: int|
                subgroup_match(self.groups_map@, i, j, subgroup_id as int),
            r matches Some(a) ==> exists|i: int, j: int|
                subgroup_match(self.groups_map@, i, j, subgroup_id as int) && *a
                    == self.groups_map@[i].subgroups.subgroups_map@[j],
    {
        let mut i: usize = 0;
        while i < self.groups_map.len()
            invariant
                i <= self.groups_map@.len(),
                forall|i2: int, j2: int|
                    0 <= i2 < i ==> !subgroup_match(
                        self.groups_map@,
                        i2,
                        j2,
                        subgroup_id as int,
                    ),
            decreases self.groups_map@.len() - i,
        {
            let sgs = &self.groups_map[i].subgroups.subgroups_map;
            let mut j: usize = 0;
            while j < sgs.len()
                invariant
                    i < self.groups_map@.len(),
                    sgs@ == self.groups_map@[i as int].subgroups.subgroups_map@,
                    j <= sgs@.len(),
                    forall|j2: int|
                        0 <= j2 < j ==> !subgroup_match(
                            self.groups_map@,
                            i as int,
                            j2,
                            subgroup_id as int,
                        ),
                decreases sgs@.len() - j,
            {
                if sgs[j].subgroup.id == subgroup_id {
                    proof {
                        assert(subgroup_match(
                            self.groups_map@,
                            i as int,
                            j as int,
                            subgroup_id as int,
                        ));
                    }
                    return Some(&sgs[j]);
                }
                j += 1;
            }
            i += 1;
        }
        None
    }

    /// The loaded subgroup abstraction with the given id, mutably, if
    /// one is loaded under some group.  Everything else is left as it
    /// stands.
    pub fn get_mut_subgroup_abstraction(&mut self, subgroup_id: i32) -> (r: Option<
        &mut SubGroupAbstraction,
    >)
        ensures
            r is Some <==> exists|i: int, j: int|
                subgroup_match(old(self).groups_map@, i, j, subgroup_id as int),
            r is None ==> *final(self) == *old(self),
            r matches Some(a) ==> exists|i: int, j: int|
                ({
                    &&& subgroup_match(old(self).groups_map@, i, j, subgroup_id as int)
                    &&& *a == old(self).groups_map@[i].subgroups.subgroups_map@[j]
                    &&& final(self).groups_map@.len() == old(self).groups_map@.len()
                    &&& forall|i2: int|
                        0 <= i2 < old(self).groups_map@.len() && i2 != i
                            ==> #[trigger] final(self).groups_map@[i2] == old(
                            self,
                        ).groups_map@[i2]
                    &&& final(self).groups_map@[i].group == old(self).groups_map@[i].group
                    &&& final(self).groups_map@[i].subgroups.group_id == old(
                        self,
                    ).groups_map@[i].subgroups.group_id
                    &&& final(self).groups_map@[i].subgroups.loaded == old(
                        self,
                    ).groups_map@[i].subgroups.loaded
                    &&& final(self).groups_map@[i].subgroups.subgroups_map@ =~= old(
                        self,
                    ).groups_map@[i].subgroups.subgroups_map@.update(j, *final(a))
                    &&& final(self).loaded == old(self).loaded
                }),
    {
        let mut i: usize = 0;
        while i < self.groups_map.len()
            invariant
                self == old(self),
                i <= self.groups_map@.len(),
                forall|i2: int, j2: int|
                    0 <= i2 < i ==> !subgroup_match(
                        self.groups_map@,
                        i2,
                        j2,
                        subgroup_id as int,
                    ),
            decreases self.groups_map@.len() - i,
        {
            let sgs_len = self.groups_map[i].subgroups.subgroups_map.len();
            let mut j: usize = 0;
            while j < sgs_len
                invariant
                    self == old(self),
                    i < self.groups_map@.len(),
                    sgs_len == self.groups_map@[i as int].subgroups.subgroups_map@.len(),
                    j <= sgs_len,
                    forall|j2: int|
                        0 <= j2 < j ==> !subgroup_match(
                            self.groups_map@,
                            i as int,
                            j2,
                            subgroup_id as int,
                        ),
                decreases sgs_len - j,
            {
                if self.groups_map[i].subgroups.subgroups_map[j].subgroup.id == subgroup_id {
                    proof {
                        assert(subgroup_match(
                            self.groups_map@,
                            i as int,
                            j as int,
                            subgroup_id as int,
                        ));
                    }
                    return Some(&mut self.groups_map[i].subgroups.subgroups_map[j]);
                }
                j += 1;
            }
            i += 1;
        }
        None
    }

    /// Persists a new group row under a fresh id, appends its
    /// abstraction, and hands back a reference to it.
    pub fn create<'a>(&'a mut self, store: &mut Store, name: String) -> (r: Result<
        &'a GroupAbstraction,
        RelanotesError,
    >)
        requires
            old(self).wf(),
            old(store).wf(),
            old(store)@.next_group_id < i32::MAX,
        ensures
            final(self).wf(),
            final(store).wf(),
            r is Ok,
            ({
                let row = GroupRowV { id: old(store)@.next_group_id, name: name@ };
                &&& final(store)@.groups =~= old(store)@.groups.push(row)
                &&& final(store)@.next_group_id == old(store)@.next_group_id + 1
                &&& final(store)@.subgroups == old(store)@.subgroups
                &&& final(store)@.node_types == old(store)@.node_types
                &&& final(store)@.nodes == old(store)@.nodes
                &&& final(self).rows() =~= old(self).rows().push(row)
                &&& final(self).groups_map@.len() == old(self).groups_map@.len() + 1
                &&& forall|i: int|
                    0 <= i < old(self).groups_map@.len()
                        ==> #[trigger] final(self).groups_map@[i] == old(self).groups_map@[i]
                &&& final(self).groups_map@.last().group@ == row
                &&& final(self).groups_map@.last().subgroups.subgroups_map@.len() == 0
                &&& !final(self).groups_map@.last().subgroups.loaded
                &&& final(self).groups_map@.last().subgroups.owner_group_id() == row.id
                &&& final(self).loaded == old(self).loaded
                &&& r matches Ok(g) ==> *g == final(self).groups_map@.last()
            }),
    {
        let id = store.insert_group(name.clone());
        let row = GroupElement { id, name };
        self.groups_map.push(GroupAbstraction::new(row));
        proof {
            assert(final(self).rows() =~= old(self).rows().push(
                final(self).groups_map@.last().group@,
            ));
        }
        let n = self.groups_map.len() - 1;
        Ok(&self.groups_map[n])
    }

    /// Removes the persisted row and, whether or not the id was
    /// loaded, removes its abstraction; removal is idempotent.
    pub fn delete(&mut self, store: &mut Store, group_id: i32) -> (r: Result<
        (),
        RelanotesError,
    >)
        requires
            old(self).wf(),
            old(store).wf(),
        ensures
            final(self).wf(),
            final(store).wf(),
            r is Ok,
            final(store)@.groups =~= remove_group_row(old(store)@.groups, group_id as int),
            final(store)@.subgroups == old(store)@.subgroups,
            final(store)@.node_types == old(store)@.node_types,
            final(store)@.nodes == old(store)@.nodes,
            !has_group_row(old(self).rows(), group_id as int) ==> final(self).groups_map@ == old(
                self,
            ).groups_map@,
            has_group_row(old(self).rows(), group_id as int) ==> final(self).groups_map@
                =~= old(self).groups_map@.remove(
                first_group_index(old(self).rows(), group_id as int),
            ),
            final(self).loaded == old(self).loaded,
    {
        store.delete_group(group_id);
        let mut i: usize = 0;
        while i < self.groups_map.len()
            invariant
                self.wf(),
                store.wf(),
                store@.groups =~= remove_group_row(old(store)@.groups, group_id as int),
                store@.subgroups == old(store)@.subgroups,
                store@.node_types == old(store)@.node_types,
                store@.nodes == old(store)@.nodes,
                i <= self.groups_map@.len(),
                self.groups_map@ == old(self).groups_map@,
                self.loaded == old(self).loaded,
                forall|k: int| 0 <= k < i ==> old(self).rows()[k].id != group_id as int,
            decreases self.groups_map@.len() - i,
        {
            if self.groups_map[i].group.id == group_id {
                proof {
                    assert(old(self).rows()[i as int].id == group_id as int);
                    assert(has_group_row(old(self).rows(), group_id as int));
                    lemma_first_group_index(old(self).rows(), group_id as int);
                    assert(first_group_index(old(self).rows(), group_id as int) == i as int);
                }
                self.groups_map.remove(i);
                proof {
                    assert(final(self).groups_map@ =~= old(self).groups_map@.remove(i as int));
                    assert forall|k: int|
                        0 <= k < final(self).groups_map@.len() implies (
                    #[trigger] final(self).groups_map@[k]).wf() by {
                        let ka: int = if k < i as int {
                            k
                        } else {
                            k + 1
                        };
                        assert(final(self).groups_map@[k] == old(self).groups_map@[ka]);
                    }
                }
                return Ok(());
            }
            i += 1;
        }
        proof {
            if has_group_row(old(self).rows(), group_id as int) {
                assert(false);
            }
        }
        Ok(())
    }
}

} // verus!
