//! A flat, id-keyed collection of group rows mirroring the store's
//! `groups` relation.

use vstd::prelude::*;
use crate::models::{str_eq, GroupElement, GroupRowV};
use crate::nodes_mod::RelanotesError;
use crate::store::{
    group_rows_view, group_row_index, has_group_row, remove_group_row, Store,
};

verus! {

/// A group row laid over an existing collection: replaces the row
/// with the same id, or comes in at the end.
pub open spec fn upsert_group_row(m: Seq<GroupRowV>, r: GroupRowV) -> Seq<GroupRowV> {
    if has_group_row(m, r.id) {
        m.update(group_row_index(m, r.id), r)
    } else {
        m.push(r)
    }
}

/// Group rows laid over a collection one after the other, in order.
pub open spec fn upsert_group_rows(m: Seq<GroupRowV>, rows: Seq<GroupRowV>) -> Seq<GroupRowV>
    decreases rows.len(),
{
    if rows.len() == 0 {
        m
    } else {
        upsert_group_row(upsert_group_rows(m, rows.drop_last()), rows.last())
    }
}

/// The collection of loaded group rows, keyed by id.
pub struct Groups {
    groups_map: Vec<GroupElement>,
}

impl View for Groups {
    type V = Seq<GroupRowV>;

    closed spec fn view(&self) -> Seq<GroupRowV> {
        group_rows_view(self.groups_map@)
    }
}

impl Groups {
    /// No two loaded rows share an id.
    pub open spec fn wf(&self) -> bool {
        crate::store::group_ids_distinct(self@)
    }

    /// An empty collection.
    pub fn new() -> (r: Groups)
        ensures
            r.wf(),
            r@ =~= Seq::<GroupRowV>::empty(),
    {
        Groups { groups_map: Vec::new() }
    }

    /// The index of the loaded row with the given id, if one is
    /// there.
    fn find_index(&self, id: i32) -> (r: Option<usize>)
        requires
            self.wf(),
        ensures
            r is Some <==> has_group_row(self@, id as int),
            r matches Some(i) ==> (
                i < self@.len() && i as int == group_row_index(self@, id as int)
            ),
    {
        let mut i: usize = 0;
        while i < self.groups_map.len()
            invariant
                self.wf(),
                i <= self@.len(),
                self@.len() == self.groups_map@.len(),
                forall|k: int| 0 <= k < i ==> self@[k].id != id as int,
            decreases self@.len() - i,
        {
            if self.groups_map[i].id == id {
                proof {
                    assert(self@[i as int].id == id as int);
                    assert(has_group_row(self@, id as int));
                    let ci = group_row_index(self@, id as int);
                    assert(0 <= ci < self@.len() && self@[ci].id == id as int);
                    assert(ci == i as int);
                }
                return Some(i);
            }
            i += 1;
        }
        None
    }

    /// Lays one row over the collection, replacing a row with the
    /// same id or appending.
    fn upsert(&mut self, row: GroupElement)
        requires
            old(self).wf(),
        ensures
            final(self).wf(),
            final(self)@ =~= upsert_group_row(old(self)@, row@),
    {
        match self.find_index(row.id) {
            Some(i) => {
                let slot = &mut self.groups_map[i];
                *slot = row;
                proof {
                    assert(final(self)@ =~= old(self)@.update(i as int, final(self)@[i as int]));
                }
            },
            None => {
                self.groups_map.push(row);
                proof {
                    assert(final(self)@ =~= old(self)@.push(final(self)@.last()));
                }
            },
        }
    }

    /// Persists a new group row under a fresh id, lays it into the
    /// collection, and hands back a reference to the loaded row.
    pub fn create_group<'a>(&'a mut self, store: &mut Store, name: &str) -> (r: Result<
        &'a GroupElement,
        RelanotesError,
    >)
        requires
            old(self).wf(),
            old(store).wf(),
            old(store)@.next_group_id < i32::MAX,
        ensures
            final(self).wf(),
            final(store).wf(),
            r is Ok,
            ({
                let row = GroupRowV { id: old(store)@.next_group_id, name: name@ };
                &&& final(store)@.groups =~= old(store)@.groups.push(row)
                &&& final(store)@.next_group_id == old(store)@.next_group_id + 1
                &&& final(store)@.subgroups == old(store)@.subgroups
                &&& final(store)@.node_types == old(store)@.node_types
                &&& final(store)@.nodes == old(store)@.nodes
                &&& final(self)@ =~= upsert_group_row(old(self)@, row)
                &&& r matches Ok(g) ==> g@ == row
            }),
    {
        let id = store.insert_group(name.to_owned());
        let row = GroupElement { id, name: name.to_owned() };
        let ghost rowv = row@;
        self.upsert(row);
        match self.find_index(id) {
            Some(i) => {
                proof {
                    let ci = group_row_index(self@, id as int);
                    assert(self@[ci] == rowv) by {
                        if has_group_row(old(self)@, id as int) {
                            assert(self@[group_row_index(old(self)@, id as int)] == rowv);
                            assert(ci == group_row_index(old(self)@, id as int));
                        } else {
                            assert(self@.last() == rowv);
                            assert(self@[ci].id == rowv.id);
                            assert(forall|k: int|
                                0 <= k < self@.len() - 1 ==> self@[k] == old(self)@[k]);
                            if ci < self@.len() - 1 {
                                assert(old(self)@[ci].id == id as int);
                                assert(has_group_row(old(self)@, id as int));
                            }
                        }
                    }
                }
                Ok(&self.groups_map[i])
            },
            None => {
                proof {
                    assert(has_group_row(self@, id as int)) by {
                        if has_group_row(old(self)@, id as int) {
                            assert(self@[group_row_index(old(self)@, id as int)].id == id as int);
                        } else {
                            assert(self@.last().id == id as int);
                        }
                    }
                    assert(false);
                }
                Err(RelanotesError::DBQueriesError)
            },
        }
    }

    /// Removes the persisted row and, whether or not the id was
    /// loaded, removes it from the collection; removal is idempotent.
    pub fn delete_group(&mut self, store: &mut Store, id: &i32) -> (r: Result<
        (),
        RelanotesError,
    >)
        requires
            old(self).wf(),
            old(store).wf(),
        ensures
            final(self).wf(),
            final(store).wf(),
            r is Ok,
            final(store)@.groups =~= remove_group_row(old(store)@.groups, *id as int),
            final(store)@.subgroups == old(store)@.subgroups,
            final(store)@.node_types == old(store)@.node_types,
            final(store)@.nodes == old(store)@.nodes,
            final(self)@ =~= remove_group_row(old(self)@, *id as int),
    {
        store.delete_group(*id);
        match self.find_index(*id) {
            Some(i) => {
                self.groups_map.remove(i);
                proof {
                    assert(final(self)@ =~= old(self)@.remove(i as int));
                    assert forall|p: int, q: int|
                        0 <= p < q < final(self)@.len() implies final(self)@[p].id
                        != final(self)@[q].id by {
                        let pi: int = if p < i as int {
                            p
                        } else {
                            p + 1
                        };
                        let qi: int = if q < i as int {
                            q
                        } else {
                            q + 1
                        };
                        assert(final(self)@[p] == old(self)@[pi]);
                        assert(final(self)@[q] == old(self)@[qi]);
                    }
                }
            },
            None => {},
        }
        Ok(())
    }

    /// Loads every persisted group row into the collection, each laid
    /// over any previously loaded row with its id.
    pub fn load_groups(&mut self, store: &Store) -> (r: Result<(), RelanotesError>)
        requires
            old(self).wf(),
        ensures
            final(self).wf(),
            r is Ok,
            final(self)@ =~= upsert_group_rows(old(self)@, store@.groups),
    {
        let rows = store.groups_rows();
        let mut i: usize = 0;
        while i < rows.len()
            invariant
                self.wf(),
                i <= rows@.len(),
                group_rows_view(rows@) == store@.groups,
                self@ =~= upsert_group_rows(old(self)@, store@.groups.take(i as int)),
            decreases rows@.len() - i,
        {
            proof {
                assert(store@.groups.take(i + 1).drop_last() =~= store@.groups.take(i as int));
                assert(store@.groups.take(i + 1).last() == store@.groups[i as int]);
            }
            self.upsert(rows[i].duplicate());
            i += 1;
        }
        proof {
            assert(store@.groups.take(store@.groups.len() as int) =~= store@.groups);
        }
        Ok(())
    }

    /// Whether a loaded row carries the given name.
    pub fn group_exists(&self, name: &str) -> (b: bool)
        ensures
            b == exists|k: int| 0 <= k < self@.len() && #[trigger] self@[k].name == name@,
    {
        let mut i: usize = 0;
        while i < self.groups_map.len()
            invariant
                i <= self@.len(),
                self@.len() == self.groups_map@.len(),
                forall|k: int| 0 <= k < i ==> self@[k].name != name@,
            decreases self@.len() - i,
        {
            if str_eq(self.groups_map[i].name.as_str(), name) {
                proof {
                    assert(self@[i as int].name == name@);
                }
                return true;
            }
            i += 1;
        }
        false
    }
}

} // verus!
