//! A kind-agnostic adjacency over raw node rows: every row's link is
//! taken as its parent, whatever its type.  Rows are loaded in bulk,
//! created, renamed and deleted against the store.

use vstd::prelude::*;
use crate::models::{opt_id_view, opt_str_ref_view, NodeElement, NodeRowV};
use crate::nodes_mod::{ids_view, sort_distinct_ids, RelanotesError};
use crate::store::{
    has_node_row, insert_node_ok, node_row, node_row_index, node_rows_view, remove_node_row,
    renamed_node_row, root_name_taken, Store,
};

verus! {

/// Mathematical view of one loaded row with its collected children.
pub ghost struct RepNodeV {
    pub row: NodeRowV,
    pub children: Seq<int>,
}

/// A row wrapped with its derived parent and children.
struct GraphNode {
    node: NodeElement,
    parent_node_id: Option<i32>,
    children: Vec<i32>,
}

impl View for GraphNode {
    type V = RepNodeV;

    closed spec fn view(&self) -> RepNodeV {
        RepNodeV { row: self.node@, children: ids_view(self.children@) }
    }
}

impl GraphNode {
    /// Wraps a row; the derived parent is the row's link.
    fn new(node: NodeElement) -> (r: GraphNode)
        ensures
            r@ == (RepNodeV { row: node@, children: Seq::<int>::empty() }),
            opt_id_view(r.parent_node_id) == node@.linked_to_id,
    {
        let linked_to_id = node.linked_to_id;
        let r = GraphNode { node, parent_node_id: linked_to_id, children: Vec::new() };
        proof {
            assert(r@.children =~= Seq::<int>::empty());
        }
        r
    }

    /// Appends a child id.
    fn add_child(&mut self, node_id: i32)
        ensures
            final(self)@.row == old(self)@.row,
            final(self)@.children == old(self)@.children.push(node_id as int),
            final(self).parent_node_id == old(self).parent_node_id,
    {
        self.children.push(node_id);
        proof {
            assert(final(self)@.children =~= old(self)@.children.push(node_id as int));
        }
    }

    /// Removes the first occurrence of a child id and returns it, or
    /// nothing when the id is not a child.
    fn remove_child(&mut self, node_id: i32) -> (r: Option<i32>)
        ensures
            final(self)@.row == old(self)@.row,
            final(self).parent_node_id == old(self).parent_node_id,
            old(self)@.children.contains(node_id as int) ==> (r == Some(node_id)
                && final(self)@.children =~= old(self)@.children.remove(
                crate::nodes_mod::first_index_of_id(old(self)@.children, node_id as int),
            )),
            !old(self)@.children.contains(node_id as int) ==> (r is None && final(self)@.children
                == old(self)@.children),
    {
        let mut i: usize = 0;
        while i < self.children.len()
            invariant
                i <= self@.children.len(),
                forall|k: int| 0 <= k < i ==> self@.children[k] != node_id as int,
                self == old(self),
            decreases self@.children.len() - i,
        {
            if self.children[i] == node_id {
                proof {
                    assert(old(self)@.children[i as int] == node_id as int);
                    assert(old(self)@.children.contains(node_id as int));
                    crate::nodes_mod::lemma_first_index_of_id(
                        old(self)@.children,
                        node_id as int,
                    );
                    assert(crate::nodes_mod::first_index_of_id(
                        old(self)@.children,
                        node_id as int,
                    ) == i as int);
                }
                self.children.remove(i);
                proof {
                    assert(final(self)@.children =~= old(self)@.children.remove(i as int));
                }
                return Some(node_id);
            }
            i += 1;
        }
        None
    }
}

/// The rows wrapped with empty children, in row order.
pub open spec fn rep_base(rows: Seq<NodeRowV>) -> Seq<RepNodeV> {
    Seq::new(rows.len(), |i: int| RepNodeV { row: rows[i], children: Seq::empty() })
}

/// The children the row with the given id has collected after the
/// first `j` rows were walked: the ids of those among them whose
/// link names it, in walk order.
pub open spec fn rep_children_upto(base: Seq<RepNodeV>, j: int, id: int) -> Seq<int>
    decreases j,
{
    if j <= 0 {
        Seq::empty()
    } else {
        let prev = rep_children_upto(base, j - 1, id);
        if base[j - 1].row.linked_to_id == Some(id) {
            prev.push(base[j - 1].row.id)
        } else {
            prev
        }
    }
}

/// The second pass over wrapped rows: every row's children are the
/// rows that link to it, in discovery order.
pub open spec fn rep_hydrated(base: Seq<RepNodeV>) -> Seq<RepNodeV> {
    Seq::new(
        base.len(),
        |i: int| RepNodeV {
            row: base[i].row,
            children: rep_children_upto(base, base.len() as int, base[i].row.id),
        },
    )
}

/// Whether some wrapped row carries the given id.
pub open spec fn rep_contains(ns: Seq<RepNodeV>, id: int) -> bool {
    exists|i: int| 0 <= i < ns.len() && ns[i].row.id == id
}

/// The index of the wrapped row with the given id (meaningful when it
/// is there and ids are distinct).
pub open spec fn rep_index_of(ns: Seq<RepNodeV>, id: int) -> int {
    choose|i: int| 0 <= i < ns.len() && ns[i].row.id == id
}

/// No two wrapped rows share an id.
pub open spec fn rep_ids_distinct(ns: Seq<RepNodeV>) -> bool {
    forall|i: int, j: int| 0 <= i < j < ns.len() ==> ns[i].row.id != ns[j].row.id
}

/// A freshly created row registered in the collection: appended, and,
/// when its link names a loaded row, appended to that row's children.
pub open spec fn rep_register(ns: Seq<RepNodeV>, g: RepNodeV) -> Seq<RepNodeV> {
    let ns1 = ns.push(g);
    match g.row.linked_to_id {
        Some(p) => if rep_contains(ns, p) {
            let pi = rep_index_of(ns, p);
            ns1.update(
                pi,
                RepNodeV { row: ns[pi].row, children: ns[pi].children.push(g.row.id) },
            )
        } else {
            ns1
        },
        None => ns1,
    }
}

/// The names of the loaded ancestors of the row with the given id,
/// nearest root first, walked with the given fuel; nothing when the
/// id is not loaded or the fuel runs out on a linked cycle.
pub open spec fn rep_path_up(ns: Seq<RepNodeV>, id: int, fuel: nat) -> Option<Seq<Seq<char>>>
    decreases fuel,
{
    if !rep_contains(ns, id) {
        None
    } else {
        match ns[rep_index_of(ns, id)].row.linked_to_id {
            Some(p) => {
                if !rep_contains(ns, p) {
                    Some(Seq::empty())
                } else if fuel == 0 {
                    None
                } else {
                    match rep_path_up(ns, p, (fuel - 1) as nat) {
                        Some(rest) => Some(rest.push(ns[rep_index_of(ns, p)].row.name)),
                        None => None,
                    }
                }
            },
            None => Some(Seq::empty()),
        }
    }
}

/// View of a vector of names.
pub open spec fn names_view(s: Seq<String>) -> Seq<Seq<char>> {
    Seq::new(s.len(), |i: int| s[i]@)
}

/// The adjacency of one bulk of loaded rows.
pub struct NodesRepresentation {
    map: Vec<GraphNode>,
}

impl View for NodesRepresentation {
    type V = Seq<RepNodeV>;

    closed spec fn view(&self) -> Seq<RepNodeV> {
        Seq::new(self.map@.len(), |i: int| self.map@[i]@)
    }
}

impl NodesRepresentation {
    /// No two loaded rows share an id.
    pub open spec fn wf(&self) -> bool {
        rep_ids_distinct(self@)
    }

    /// The index of the loaded row with the given id, if one is
    /// there.
    fn find_index(&self, id: i32) -> (r: Option<usize>)
        requires
            self.wf(),
        ensures
            r is Some <==> rep_contains(self@, id as int),
            r matches Some(i) ==> (
                i < self@.len() && i as int == rep_index_of(self@, id as int)
            ),
    {
        let mut i: usize = 0;
        while i < self.map.len()
            invariant
                self.wf(),
                i <= self@.len(),
                self@.len() == self.map@.len(),
                forall|k: int| 0 <= k < i ==> self@[k].row.id != id as int,
            decreases self@.len() - i,
        {
            if self.map[i].node.id == id {
                proof {
                    assert(self@[i as int].row.id == id as int);
                    assert(rep_contains(self@, id as int));
                    let ci = rep_index_of(self@, id as int);
                    assert(0 <= ci < self@.len() && self@[ci].row.id == id as int);
                    assert(ci == i as int);
                }
                return Some(i);
            }
            i += 1;
        }
        None
    }

    /// Builds the adjacency from a bulk of rows in two passes: pass
    /// one wraps every row keyed by id, so that lookups succeed
    /// regardless of row order; pass two walks the rows again and
    /// attaches every row to the row its link names, when that row is
    /// loaded.
    pub fn new(nodes: Vec<NodeElement>) -> (r: NodesRepresentation)
        requires
            crate::store::node_ids_distinct(node_rows_view(nodes@)),
        ensures
            r.wf(),
            r@ =~= rep_hydrated(rep_base(node_rows_view(nodes@))),
    {
        let ghost rowsv = node_rows_view(nodes@);
        let ghost base = rep_base(rowsv);
        let mut map: Vec<GraphNode> = Vec::new();
        let mut i: usize = 0;
        while i < nodes.len()
            invariant
                rowsv == node_rows_view(nodes@),
                base == rep_base(rowsv),
                i <= rowsv.len(),
                map@.len() == i,
                forall|k: int| 0 <= k < i ==> #[trigger] map@[k]@ == base[k],
                forall|k: int|
                    0 <= k < i ==> opt_id_view(#[trigger] map@[k].parent_node_id)
                        == map@[k]@.row.linked_to_id,
            decreases rowsv.len() - i,
        {
            let gn = GraphNode::new(nodes[i].duplicate());
            proof {
                assert(gn@ == base[i as int]);
            }
            map.push(gn);
            i += 1;
        }
        proof {
            assert(rep_ids_distinct(base));
        }
        let mut j: usize = 0;
        while j < map.len()
            invariant
                j <= map@.len(),
                map@.len() == base.len(),
                rep_ids_distinct(base),
                forall|i2: int| 0 <= i2 < base.len() ==> #[trigger] map@[i2]@.row == base[i2].row,
                forall|k: int|
                    0 <= k < base.len() ==> opt_id_view(#[trigger] map@[k].parent_node_id)
                        == map@[k]@.row.linked_to_id,
                forall|i2: int|
                    0 <= i2 < base.len() ==> #[trigger] map@[i2]@.children == rep_children_upto(
                        base,
                        j as int,
                        base[i2].row.id,
                    ),
            decreases map@.len() - j,
        {
            let parent_opt = map[j].parent_node_id;
            match parent_opt {
                Some(p) => {
                    proof {
                        assert(opt_id_view(parent_opt) == map@[j as int]@.row.linked_to_id);
                        assert(base[j as int].row.linked_to_id == Some(p as int));
                    }
                    let found = rep_find(&map, p);
                    match found {
                        Some(pi) => {
                            let child_id = map[j].node.id;
                            proof {
                                assert(map@[pi as int]@.row.id == p as int);
                                assert(base[pi as int].row.id == p as int);
                                assert(child_id as int == base[j as int].row.id);
                            }
                            let ghost prevm = map@;
                            let slot = &mut map[pi];
                            slot.add_child(child_id);
                            proof {
                                assert(map@[pi as int]@.children =~= prevm[pi as int]@.children
                                    .push(child_id as int));
                                assert forall|i2: int|
                                    0 <= i2 < base.len() implies #[trigger] map@[i2]@.children
                                    == rep_children_upto(base, j + 1, base[i2].row.id) by {
                                    if i2 == pi as int {
                                    } else {
                                        assert(base[i2].row.id != base[pi as int].row.id);
                                    }
                                }
                            }
                        },
                        None => {
                            proof {
                                assert forall|i2: int|
                                    0 <= i2 < base.len() implies #[trigger] map@[i2]@.children
                                    == rep_children_upto(base, j + 1, base[i2].row.id) by {
                                    assert(map@[i2]@.row.id == base[i2].row.id);
                                }
                            }
                        },
                    }
                },
                None => {
                    proof {
                        assert(opt_id_view(parent_opt) == map@[j as int]@.row.linked_to_id);
                        assert(base[j as int].row.linked_to_id is None);
                        assert forall|i2: int|
                            0 <= i2 < base.len() implies #[trigger] map@[i2]@.children
                            == rep_children_upto(base, j + 1, base[i2].row.id) by {}
                    }
                },
            }
            j += 1;
        }
        let r = NodesRepresentation { map };
        proof {
            assert forall|i2: int| 0 <= i2 < base.len() implies r@[i2] == rep_hydrated(
                base,
            )[i2] by {
                assert(r@[i2].row == base[i2].row);
                assert(r@[i2].children == rep_children_upto(
                    base,
                    base.len() as int,
                    base[i2].row.id,
                ));
            }
            assert(r@ =~= rep_hydrated(base));
        }
        r
    }

    /// Creates a node row: refuses a rootless duplicate name, inserts
    /// the row in the store, reads it back, wraps it, registers it,
    /// and, when its link names a loaded row, appends it to that
    /// row's children.  Returns the id the store assigned.
    pub fn create_node(
        &mut self,
        store: &mut Store,
        name: &str,
        description: Option<&str>,
        parent_node_id: Option<i32>,
        subgroup_id: i32,
        type_id: i32,
    ) -> (r: Result<i32, RelanotesError>)
        requires
            old(self).wf(),
            old(store).wf(),
            old(store)@.next_node_id < i32::MAX,
        ensures
            final(self).wf(),
            final(store).wf(),
            r is Ok <==> ({
                &&& !(parent_node_id is None && root_name_taken(old(store)@.nodes, name@))
                &&& insert_node_ok(
                    old(store)@,
                    opt_id_view(parent_node_id),
                    type_id as int,
                    subgroup_id as int,
                )
                &&& !rep_contains(old(self)@, old(store)@.next_node_id)
                &&& forall|k: int|
                    0 <= k < old(self)@.len() ==> (#[trigger] old(self)@[k]).row.linked_to_id
                        != Some(old(store)@.next_node_id)
            }),
            r matches Ok(id) ==> ({
                let row = crate::nodes_mod::created_row(
                    old(store)@,
                    opt_id_view(parent_node_id),
                    type_id as int,
                    name@,
                    opt_str_ref_view(description),
                    subgroup_id as int,
                );
                &&& id as int == old(store)@.next_node_id
                &&& final(store)@.nodes =~= old(store)@.nodes.push(row)
                &&& final(store)@.next_node_id == old(store)@.next_node_id + 1
                &&& final(store)@.groups == old(store)@.groups
                &&& final(store)@.subgroups == old(store)@.subgroups
                &&& final(store)@.node_types == old(store)@.node_types
                &&& final(self)@ =~= rep_register(
                    old(self)@,
                    (RepNodeV { row: row, children: Seq::empty() }),
                )
            }),
            r is Err ==> (final(self)@ == old(self)@ && final(store)@ == old(store)@),
    {
        if parent_node_id.is_none() {
            if store.root_name_exists(name) {
                return Err(RelanotesError::NodeMutationError("Duplicate name".to_owned()));
            }
        }
        let prospective = store.next_node_id();
        if self.find_index(prospective).is_some() {
            return Err(
                RelanotesError::NodeMutationError(
                    "the id the store would assign is already loaded".to_owned(),
                ),
            );
        }
        if self.some_link_is(prospective) {
            return Err(
                RelanotesError::NodeMutationError(
                    "a loaded row already links to the next id".to_owned(),
                ),
            );
        }
        let id = match store.insert_node(parent_node_id, type_id, name, description, subgroup_id) {
            Some(i) => i,
            None => {
                return Err(RelanotesError::DBQueriesError);
            },
        };
        proof {
            assert(store@.nodes[store@.nodes.len() - 1].id == id as int);
            assert(has_node_row(store@.nodes, id as int));
        }
        let row = match store.get_node(id) {
            Some(n) => n.duplicate(),
            None => {
                proof {
                    assert(false);
                }
                return Err(RelanotesError::DBQueriesError);
            },
        };
        proof {
            let w = node_row_index(store@.nodes, id as int);
            assert(0 <= w < store@.nodes.len() && store@.nodes[w].id == id as int);
            assert(w == store@.nodes.len() - 1);
        }
        let ghost t_old = self@;
        let parent_of_new = row.linked_to_id;
        let gn = GraphNode::new(row);
        let ghost gv = gn@;
        proof {
            assert(!rep_contains(t_old, gv.row.id));
        }
        self.map.push(gn);
        proof {
            assert(self@ =~= t_old.push(gv));
        }
        match parent_of_new {
            Some(p) => {
                match rep_find(&self.map, p) {
                    Some(pi) => {
                        proof {
                            assert(self@[pi as int].row.id == p as int);
                            assert(has_node_row(old(store)@.nodes, p as int));
                            let wl = node_row_index(old(store)@.nodes, p as int);
                            assert(0 <= wl < old(store)@.nodes.len() && old(store)@.nodes[wl].id
                                == p as int);
                            assert((p as int) < old(store)@.next_node_id);
                            assert(gv.row.id == old(store)@.next_node_id);
                            assert((pi as int) < t_old.len());
                            assert(t_old[pi as int].row.id == p as int);
                            assert(rep_contains(t_old, p as int));
                            let ci = rep_index_of(t_old, p as int);
                            assert(0 <= ci < t_old.len() && t_old[ci].row.id == p as int);
                            assert(ci == pi as int);
                        }
                        let ghost prevm = self@;
                        let slot = &mut self.map[pi];
                        slot.add_child(id);
                        proof {
                            assert(self@[pi as int].children =~= prevm[pi as int].children.push(
                                id as int,
                            ));
                            assert(final(self)@ =~= rep_register(t_old, gv));
                        }
                    },
                    None => {
                        proof {
                            assert(!rep_contains(t_old, p as int)) by {
                                if rep_contains(t_old, p as int) {
                                    let ci = rep_index_of(t_old, p as int);
                                    assert(self@[ci].row.id == p as int);
                                }
                            }
                            assert(final(self)@ =~= rep_register(t_old, gv));
                        }
                    },
                }
            },
            None => {
                proof {
                    assert(final(self)@ =~= rep_register(t_old, gv));
                }
            },
        }
        proof {
            assert forall|i2: int, j2: int|
                0 <= i2 < j2 < final(self)@.len() implies final(self)@[i2].row.id
                != final(self)@[j2].row.id by {
                if j2 == final(self)@.len() - 1 {
                    assert(rep_contains(t_old, final(self)@[i2].row.id));
                }
            }
        }
        Ok(id)
    }

    /// Whether some loaded row links to the given id.
    fn some_link_is(&self, p: i32) -> (b: bool)
        ensures
            b == exists|k: int|
                0 <= k < self@.len() && (#[trigger] self@[k]).row.linked_to_id == Some(p as int),
    {
        let mut i: usize = 0;
        while i < self.map.len()
            invariant
                i <= self@.len(),
                self@.len() == self.map@.len(),
                forall|k: int|
                    0 <= k < i ==> (#[trigger] self@[k]).row.linked_to_id != Some(p as int),
            decreases self@.len() - i,
        {
            match self.map[i].node.linked_to_id {
                Some(q) => {
                    if q == p {
                        proof {
                            assert(self@[i as int].row.linked_to_id == Some(p as int));
                        }
                        return true;
                    }
                },
                None => {},
            }
            i += 1;
        }
        false
    }

    /// Whether the row is loaded and the row its link names is loaded
    /// too.
    pub fn node_has_loaded_parent(&self, node_id: i32) -> (b: bool)
        requires
            self.wf(),
        ensures
            b == (rep_contains(self@, node_id as int) && match node_row_of(
                self@,
                node_id as int,
            ).linked_to_id {
                Some(p) => rep_contains(self@, p),
                None => false,
            }),
    {
        match self.find_index(node_id) {
            Some(i) => {
                match self.map[i].node.linked_to_id {
                    Some(p) => self.find_index(p).is_some(),
                    None => false,
                }
            },
            None => false,
        }
    }

    /// Deletes a childless loaded row: removes the persisted row and
    /// detaches the id from the children of the row its link names.
    /// A row with loaded children, or an id that is not loaded, is
    /// refused and nothing changes.  The entry itself stays loaded,
    /// standing from then on as a root.
    /// Deletes a childless loaded row: removes the persisted row,
    /// detaches the id from the children of the row its link names,
    /// and removes the entry itself, so the adjacency stays
    /// consistent.  A row with loaded children, or an id that is not
    /// loaded, is refused and nothing changes.
    pub fn delete_node(&mut self, store: &mut Store, node_id: i32) -> (r: Option<i32>)
        requires
            old(self).wf(),
            old(store).wf(),
        ensures
            final(self).wf(),
            final(store).wf(),
            r is Some <==> (rep_contains(old(self)@, node_id as int) && node_at_of(
                old(self)@,
                node_id as int,
            ).children.len() == 0),
            r is Some ==> ({
                &&& r == Some(node_id)
                &&& final(store)@.nodes =~= remove_node_row(old(store)@.nodes, node_id as int)
                &&& final(store)@.groups == old(store)@.groups
                &&& final(store)@.subgroups == old(store)@.subgroups
                &&& final(store)@.node_types == old(store)@.node_types
                &&& final(self)@ =~= rep_delete(old(self)@, node_id as int)
            }),
            r is None ==> (final(self)@ == old(self)@ && final(store)@ == old(store)@),
    {
        let i = match self.find_index(node_id) {
            Some(i) => i,
            None => {
                return None;
            },
        };
        if self.map[i].children.len() > 0 {
            return None;
        }
        store.delete_node(node_id);
        let parent_opt = self.map[i].node.linked_to_id;
        proof {
            assert(opt_id_view(parent_opt) == self@[i as int].row.linked_to_id);
        }
        match parent_opt {
            Some(p) => {
                match self.find_index(p) {
                    Some(pi) => {
                        let ghost prevm = self@;
                        let slot = &mut self.map[pi];
                        slot.remove_child(node_id);
                        proof {
                            assert(self@ =~= rep_detach(prevm, node_id as int));
                        }
                    },
                    None => {
                        proof {
                            assert(!rep_contains(self@, p as int));
                            assert(self@ =~= rep_detach(old(self)@, node_id as int));
                        }
                    },
                }
            },
            None => {
                proof {
                    assert(self@ =~= rep_detach(old(self)@, node_id as int));
                }
            },
        }
        let ghost detached = self@;
        proof {
            assert(detached =~= rep_detach(old(self)@, node_id as int));
            assert(forall|i2: int|
                0 <= i2 < detached.len() ==> #[trigger] detached[i2].row == old(self)@[i2].row);
        }
        self.map.remove(i);
        proof {
            assert(final(self)@ =~= detached.remove(i as int));
            assert(final(self)@ =~= rep_delete(old(self)@, node_id as int));
            assert forall|i2: int, j2: int|
                0 <= i2 < j2 < final(self)@.len() implies final(self)@[i2].row.id
                != final(self)@[j2].row.id by {
                let ia: int = if i2 < i as int {
                    i2
                } else {
                    i2 + 1
                };
                let ja: int = if j2 < i as int {
                    j2
                } else {
                    j2 + 1
                };
                assert(final(self)@[i2] == detached[ia]);
                assert(final(self)@[j2] == detached[ja]);
                assert(detached[ia].row.id == old(self)@[ia].row.id);
                assert(detached[ja].row.id == old(self)@[ja].row.id);
            }
        }
        Some(node_id)
    }

    /// Rewrites the name of a loaded row, in the store and in
    /// memory; an id that is not loaded is refused.
    pub fn set_node_name(&mut self, store: &mut Store, node_id: i32, new_name: &str) -> (r:
        Result<(), RelanotesError>)
        requires
            old(self).wf(),
            old(store).wf(),
        ensures
            final(self).wf(),
            final(store).wf(),
            r is Ok <==> rep_contains(old(self)@, node_id as int),
            r is Ok ==> ({
                let i = rep_index_of(old(self)@, node_id as int);
                let n = old(self)@[i];
                &&& final(self)@ =~= old(self)@.update(
                    i,
                    (RepNodeV {
                        row: renamed_node_row(n.row, new_name@, n.row.description),
                        children: n.children,
                    }),
                )
                &&& (has_node_row(old(store)@.nodes, node_id as int) ==> final(store)@.nodes
                    =~= old(store)@.nodes.update(
                    node_row_index(old(store)@.nodes, node_id as int),
                    renamed_node_row(
                        node_row(old(store)@.nodes, node_id as int),
                        new_name@,
                        node_row(old(store)@.nodes, node_id as int).description,
                    ),
                ))
                &&& (!has_node_row(old(store)@.nodes, node_id as int) ==> final(store)@.nodes
                    == old(store)@.nodes)
                &&& final(store)@.groups == old(store)@.groups
                &&& final(store)@.subgroups == old(store)@.subgroups
                &&& final(store)@.node_types == old(store)@.node_types
            }),
            r is Err ==> (final(self)@ == old(self)@ && final(store)@ == old(store)@),
    {
        let i = match self.find_index(node_id) {
            Some(i) => i,
            None => {
                return Err(RelanotesError::DBQueriesError);
            },
        };
        let stored_desc: Option<String> = match store.get_node(node_id) {
            Some(n) => match &n.description {
                Some(d) => Some(d.clone()),
                None => None,
            },
            None => None,
        };
        if store.node_exists(node_id) {
            let desc_ref: Option<&str> = match &stored_desc {
                Some(d) => Some(d.as_str()),
                None => None,
            };
            store.update_node(node_id, new_name, desc_ref);
        }
        let ghost prevm = self@;
        let slot = &mut self.map[i];
        slot.node.name = new_name.to_owned();
        proof {
            assert(final(self)@ =~= prevm.update(
                i as int,
                (RepNodeV {
                    row: renamed_node_row(
                        prevm[i as int].row,
                        new_name@,
                        prevm[i as int].row.description,
                    ),
                    children: prevm[i as int].children,
                }),
            ));
            assert forall|i2: int, j2: int|
                0 <= i2 < j2 < final(self)@.len() implies final(self)@[i2].row.id
                != final(self)@[j2].row.id by {
                assert(final(self)@[i2].row.id == prevm[i2].row.id);
                assert(final(self)@[j2].row.id == prevm[j2].row.id);
            }
        }
        Ok(())
    }

    /// Rewrites the description of a loaded row, in the store and in
    /// memory; an id that is not loaded is refused.
    pub fn set_node_description(
        &mut self,
        store: &mut Store,
        node_id: &i32,
        new_description: Option<&str>,
    ) -> (r: Result<(), RelanotesError>)
        requires
            old(self).wf(),
            old(store).wf(),
        ensures
            final(self).wf(),
            final(store).wf(),
            r is Ok <==> rep_contains(old(self)@, *node_id as int),
            r is Ok ==> ({
                let i = rep_index_of(old(self)@, *node_id as int);
                let n = old(self)@[i];
                &&& final(self)@ =~= old(self)@.update(
                    i,
                    (RepNodeV {
                        row: renamed_node_row(n.row, n.row.name, opt_str_ref_view(
                            new_description,
                        )),
                        children: n.children,
                    }),
                )
                &&& (has_node_row(old(store)@.nodes, *node_id as int) ==> final(store)@.nodes
                    =~= old(store)@.nodes.update(
                    node_row_index(old(store)@.nodes, *node_id as int),
                    renamed_node_row(
                        node_row(old(store)@.nodes, *node_id as int),
                        node_row(old(store)@.nodes, *node_id as int).name,
                        opt_str_ref_view(new_description),
                    ),
                ))
                &&& (!has_node_row(old(store)@.nodes, *node_id as int) ==> final(store)@.nodes
                    == old(store)@.nodes)
                &&& final(store)@.groups == old(store)@.groups
                &&& final(store)@.subgroups == old(store)@.subgroups
                &&& final(store)@.node_types == old(store)@.node_types
            }),
            r is Err ==> (final(self)@ == old(self)@ && final(store)@ == old(store)@),
    {
        let i = match self.find_index(*node_id) {
            Some(i) => i,
            None => {
                return Err(RelanotesError::DBQueriesError);
            },
        };
        let stored_name: Option<String> = match store.get_node(*node_id) {
            Some(n) => Some(n.name.clone()),
            None => None,
        };
        match &stored_name {
            Some(nm) => {
                store.update_node(*node_id, nm.as_str(), new_description);
            },
            None => {},
        }
        let ghost prevm = self@;
        let slot = &mut self.map[i];
        slot.node.description = match new_description {
            Some(d) => Some(d.to_owned()),
            None => None,
        };
        proof {
            assert(final(self)@ =~= prevm.update(
                i as int,
                (RepNodeV {
                    row: renamed_node_row(
                        prevm[i as int].row,
                        prevm[i as int].row.name,
                        opt_str_ref_view(new_description),
                    ),
                    children: prevm[i as int].children,
                }),
            ));
            assert forall|i2: int, j2: int|
                0 <= i2 < j2 < final(self)@.len() implies final(self)@[i2].row.id
                != final(self)@[j2].row.id by {
                assert(final(self)@[i2].row.id == prevm[i2].row.id);
                assert(final(self)@[j2].row.id == prevm[j2].row.id);
            }
        }
        Ok(())
    }

    /// The loaded row with the given id, if one is loaded.
    pub fn get_node(&self, id: &i32) -> (r: Option<&NodeElement>)
        requires
            self.wf(),
        ensures
            r is Some <==> rep_contains(self@, *id as int),
            r matches Some(n) ==> n@ == node_row_of(self@, *id as int),
    {
        match self.find_index(*id) {
            Some(i) => Some(&self.map[i].node),
            None => None,
        }
    }

    /// The ids of the loaded rows with no loaded parent, in
    /// ascending order for deterministic display.
    #[verifier::rlimit(60)]
    pub fn get_roots(&self) -> (r: Vec<i32>)
        requires
            self.wf(),
        ensures
            forall|k1: int, k2: int| 0 <= k1 < k2 < r@.len() ==> r@[k1] < r@[k2],
            forall|k: int| 0 <= k < r@.len() ==> rep_is_root(self@, #[trigger] r@[k] as int),
            forall|j: int|
                0 <= j < self@.len() && #[trigger] rep_root_at(self@, j) ==> exists|k: int|
                    0 <= k < r@.len() && r@[k] as int == self@[j].row.id,
    {
        let ghost t = self@;
        let mut roots: Vec<i32> = Vec::new();
        let mut i: usize = 0;
        while i < self.map.len()
            invariant
                t == self@,
                i <= t.len(),
                t.len() == self.map@.len(),
                ids_view(roots@) == rep_root_ids_upto(t, i as int),
            decreases t.len() - i,
        {
            let is_r: bool = match self.map[i].node.linked_to_id {
                Some(p) => {
                    let found = rep_find(&self.map, p);
                    proof {
                        assert(opt_id_view(self.map@[i as int].node.linked_to_id) == t[
                            i as int
                        ].row.linked_to_id);
                        if found is Some {
                            let w = found->Some_0;
                            assert(t[w as int].row.id == p as int);
                            assert(rep_contains(t, p as int));
                        } else {
                            if rep_contains(t, p as int) {
                                let w = choose|w: int|
                                    0 <= w < t.len() && t[w].row.id == p as int;
                                assert(self.map@[w]@.row.id == p as int);
                                assert(false);
                            }
                        }
                    }
                    found.is_none()
                },
                None => true,
            };
            proof {
                assert(opt_id_view(self.map@[i as int].node.linked_to_id) == t[
                    i as int
                ].row.linked_to_id);
                assert(is_r == rep_root_at(t, i as int));
            }
            if is_r {
                let nid = self.map[i].node.id;
                roots.push(nid);
                proof {
                    assert(nid as int == t[i as int].row.id);
                    assert(ids_view(roots@) =~= ids_view(roots@.drop_last()).push(nid as int));
                }
            }
            i += 1;
        }
        let ghost n = t.len() as int;
        let ghost orig = roots@;
        proof {
            lemma_rep_root_ids_upto(t, n);
            assert forall|k1: int, k2: int|
                0 <= k1 < k2 < orig.len() implies orig[k1] != orig[k2] by {
                assert(ids_view(orig)[k1] != ids_view(orig)[k2]);
            }
        }
        let out = sort_distinct_ids(roots);
        proof {
            assert forall|k: int| 0 <= k < out@.len() implies rep_is_root(
                self@,
                #[trigger] out@[k] as int,
            ) by {
                assert(out@.contains(out@[k]));
                assert(orig.contains(out@[k]));
                let w = choose|w: int| 0 <= w < orig.len() && orig[w] == out@[k];
                assert(ids_view(orig)[w] == orig[w] as int);
                assert(rep_root_ids_upto(t, n).contains(out@[k] as int));
                let j = choose|j: int|
                    0 <= j < n && t[j].row.id == out@[k] as int && rep_root_at(t, j);
                assert(rep_contains(t, out@[k] as int));
                let ci = rep_index_of(t, out@[k] as int);
                assert(0 <= ci < t.len() && t[ci].row.id == out@[k] as int);
                assert(ci == j);
                assert(node_row_of(t, out@[k] as int) == t[j].row);
            }
            assert forall|j: int|
                0 <= j < self@.len() && #[trigger] rep_root_at(self@, j) implies exists|k: int|
                0 <= k < out@.len() && out@[k] as int == self@[j].row.id by {
                let id = t[j].row.id;
                assert(rep_root_ids_upto(t, n).contains(id));
                let w = choose|w: int| 0 <= w < ids_view(orig).len() && ids_view(orig)[w] == id;
                assert(orig[w] as int == id);
                assert(orig.contains(orig[w]));
                assert(out@.contains(orig[w]));
                let k = choose|k: int| 0 <= k < out@.len() && out@[k] == orig[w];
                assert(out@[k] as int == id);
            }
        }
        out
    }

    /// The names of the loaded ancestors of the row with the given
    /// id, nearest root first, or nothing when the id is not loaded
    /// or its links run in a cycle.
    pub fn get_node_loaded_path_names(&self, id: &i32) -> (r: Option<Vec<String>>)
        requires
            self.wf(),
        ensures
            r is Some <==> rep_path_up(self@, *id as int, self@.len() as nat) is Some,
            r matches Some(v) ==> Some(names_view(v@)) == rep_path_up(
                self@,
                *id as int,
                self@.len() as nat,
            ),
    {
        let fuel = self.map.len();
        self.walk_up(*id, fuel)
    }

    /// Walks loaded links upward, collecting ancestor names, nearest
    /// root first; gives up when the fuel runs out.
    fn walk_up(&self, id: i32, fuel: usize) -> (r: Option<Vec<String>>)
        requires
            self.wf(),
        ensures
            r is Some <==> rep_path_up(self@, id as int, fuel as nat) is Some,
            r matches Some(v) ==> Some(names_view(v@)) == rep_path_up(
                self@,
                id as int,
                fuel as nat,
            ),
        decreases fuel,
    {
        let i = match self.find_index(id) {
            Some(i) => i,
            None => {
                return None;
            },
        };
        let parent_opt = self.map[i].node.linked_to_id;
        proof {
            assert(opt_id_view(parent_opt) == self@[i as int].row.linked_to_id);
        }
        match parent_opt {
            Some(p) => {
                match self.find_index(p) {
                    Some(pi) => {
                        if fuel == 0 {
                            None
                        } else {
                            match self.walk_up(p, fuel - 1) {
                                Some(mut v) => {
                                    let pname = self.map[pi].node.name.clone();
                                    proof {
                                        assert(pname@ == self@[pi as int].row.name);
                                    }
                                    v.push(pname);
                                    proof {
                                        assert(names_view(v@) =~= names_view(
                                            v@.drop_last(),
                                        ).push(v@.last()@));
                                    }
                                    Some(v)
                                },
                                None => None,
                            }
                        }
                    },
                    None => {
                        let v: Vec<String> = Vec::new();
                        proof {
                            assert(names_view(v@) =~= Seq::<Seq<char>>::empty());
                        }
                        Some(v)
                    },
                }
            },
            None => {
                let v: Vec<String> = Vec::new();
                proof {
                    assert(names_view(v@) =~= Seq::<Seq<char>>::empty());
                }
                Some(v)
            },
        }
    }

    /// How many loaded children the row has, or nothing when the id
    /// is not loaded.
    pub fn get_node_loaded_children_count(&self, id: &i32) -> (r: Option<usize>)
        requires
            self.wf(),
        ensures
            r is Some <==> rep_contains(self@, *id as int),
            r matches Some(c) ==> c == node_at_of(self@, *id as int).children.len(),
    {
        match self.find_index(*id) {
            Some(i) => Some(self.map[i].children.len()),
            None => None,
        }
    }

    /// The ids of the row's loaded children, in discovery order, or
    /// nothing when the id is not loaded.
    pub fn get_node_loaded_children(&self, id: &i32) -> (r: Option<Vec<i32>>)
        requires
            self.wf(),
        ensures
            r is Some <==> rep_contains(self@, *id as int),
            r matches Some(v) ==> ids_view(v@) == node_at_of(self@, *id as int).children,
    {
        match self.find_index(*id) {
            Some(i) => {
                let v = self.map[i].children.clone();
                proof {
                    assert(ids_view(v@) =~= node_at_of(self@, *id as int).children);
                }
                Some(v)
            },
            None => None,
        }
    }

    /// The id of the loaded row the row's link names.  A missing id
    /// is told apart from a loaded row without a loaded parent:
    /// nothing for the former, an empty inner value for the latter.
    pub fn get_node_loaded_parent(&self, id: &i32) -> (r: Option<Option<i32>>)
        requires
            self.wf(),
        ensures
            r is Some <==> rep_contains(self@, *id as int),
            r matches Some(p) ==> ({
                &&& p is Some <==> match node_row_of(self@, *id as int).linked_to_id {
                    Some(q) => rep_contains(self@, q),
                    None => false,
                }
                &&& p matches Some(q) ==> node_row_of(self@, *id as int).linked_to_id == Some(
                    q as int,
                )
            }),
    {
        match self.find_index(*id) {
            Some(i) => {
                let parent_opt = self.map[i].node.linked_to_id;
                proof {
                    assert(opt_id_view(parent_opt) == self@[i as int].row.linked_to_id);
                }
                match parent_opt {
                    Some(p) => {
                        match self.find_index(p) {
                            Some(pi) => Some(Some(self.map[pi].node.id)),
                            None => Some(None),
                        }
                    },
                    None => Some(None),
                }
            },
            None => None,
        }
    }
}

/// The loaded entry with the given id.
pub open spec fn node_at_of(ns: Seq<RepNodeV>, id: int) -> RepNodeV {
    ns[rep_index_of(ns, id)]
}

/// The row of the loaded entry with the given id.
pub open spec fn node_row_of(ns: Seq<RepNodeV>, id: int) -> NodeRowV {
    ns[rep_index_of(ns, id)].row
}

/// The collection with the row of the given id detached from the row
/// its link names: the first occurrence of its id leaves that row's
/// children.  The entry itself is untouched here; deletion removes
/// it afterwards.
pub open spec fn rep_detach(ns: Seq<RepNodeV>, id: int) -> Seq<RepNodeV> {
    let n = ns[rep_index_of(ns, id)];
    match n.row.linked_to_id {
        Some(p) => if rep_contains(ns, p) && ns[rep_index_of(ns, p)].children.contains(id) {
            let pi = rep_index_of(ns, p);
            ns.update(
                pi,
                RepNodeV {
                    row: ns[pi].row,
                    children: ns[pi].children.remove(
                        crate::nodes_mod::first_index_of_id(ns[pi].children, id),
                    ),
                },
            )
        } else {
            ns
        },
        None => ns,
    }
}

/// The collection after a deletion: the id leaves its parent's
/// children, and the entry itself leaves the collection.
pub open spec fn rep_delete(ns: Seq<RepNodeV>, id: int) -> Seq<RepNodeV> {
    rep_detach(ns, id).remove(rep_index_of(ns, id))
}

/// Whether the entry at index `j` has no loaded parent.
pub open spec fn rep_root_at(ns: Seq<RepNodeV>, j: int) -> bool {
    match ns[j].row.linked_to_id {
        Some(p) => !rep_contains(ns, p),
        None => true,
    }
}

/// Whether the row with the given id is loaded with no loaded
/// parent.
pub open spec fn rep_is_root(ns: Seq<RepNodeV>, id: int) -> bool {
    rep_contains(ns, id) && match node_row_of(ns, id).linked_to_id {
        Some(p) => !rep_contains(ns, p),
        None => true,
    }
}

/// The ids of the roots among the first `i` entries, in entry order.
pub open spec fn rep_root_ids_upto(ns: Seq<RepNodeV>, i: int) -> Seq<int>
    decreases i,
{
    if i <= 0 {
        Seq::empty()
    } else {
        let prev = rep_root_ids_upto(ns, i - 1);
        if rep_root_at(ns, i - 1) {
            prev.push(ns[i - 1].row.id)
        } else {
            prev
        }
    }
}

/// An id stands in `rep_root_ids_upto(ns, i)` exactly when one of
/// the first `i` entries carries it and has no loaded parent; no id
/// stands there twice.
pub proof fn lemma_rep_root_ids_upto(ns: Seq<RepNodeV>, i: int)
    requires
        rep_ids_distinct(ns),
        i <= ns.len(),
    ensures
        forall|x: int|
            #[trigger] rep_root_ids_upto(ns, i).contains(x) <==> exists|j: int|
                0 <= j < i && ns[j].row.id == x && rep_root_at(ns, j),
        forall|k1: int, k2: int|
            0 <= k1 < k2 < rep_root_ids_upto(ns, i).len() ==> rep_root_ids_upto(ns, i)[k1]
                != rep_root_ids_upto(ns, i)[k2],
    decreases i,
{
    if i > 0 {
        lemma_rep_root_ids_upto(ns, i - 1);
        let prev = rep_root_ids_upto(ns, i - 1);
        let cur = rep_root_ids_upto(ns, i);
        if rep_root_at(ns, i - 1) {
            assert(cur == prev.push(ns[i - 1].row.id));
            assert forall|x: int| #[trigger] cur.contains(x) implies exists|j: int|
                0 <= j < i && ns[j].row.id == x && rep_root_at(ns, j) by {
                let k = choose|k: int| 0 <= k < cur.len() && cur[k] == x;
                if k < prev.len() {
                    assert(prev[k] == x);
                    assert(prev.contains(x));
                } else {
                    assert(ns[i - 1].row.id == x);
                }
            }
            assert forall|x: int|
                (exists|j: int|
                    0 <= j < i && ns[j].row.id == x && rep_root_at(ns, j)) implies #[trigger] cur
                .contains(x) by {
                let j = choose|j: int| 0 <= j < i && ns[j].row.id == x && rep_root_at(ns, j);
                if j < i - 1 {
                    assert(prev.contains(x));
                    let k = choose|k: int| 0 <= k < prev.len() && prev[k] == x;
                    assert(cur[k] == x);
                } else {
                    assert(cur[cur.len() - 1] == x);
                }
            }
            assert forall|k1: int, k2: int|
                0 <= k1 < k2 < cur.len() implies cur[k1] != cur[k2] by {
                if k2 == cur.len() - 1 {
                    assert(prev[k1] == cur[k1]);
                    assert(prev.contains(cur[k1]));
                    let j = choose|j: int|
                        0 <= j < i - 1 && ns[j].row.id == cur[k1] && rep_root_at(ns, j);
                    assert(ns[j].row.id != ns[i - 1].row.id);
                }
            }
        } else {
            assert(cur == prev);
            assert forall|x: int| #[trigger] cur.contains(x) implies exists|j: int|
                0 <= j < i && ns[j].row.id == x && rep_root_at(ns, j) by {
                assert(prev.contains(x));
            }
            assert forall|x: int|
                (exists|j: int|
                    0 <= j < i && ns[j].row.id == x && rep_root_at(ns, j)) implies #[trigger] cur
                .contains(x) by {
                let j = choose|j: int| 0 <= j < i && ns[j].row.id == x && rep_root_at(ns, j);
                assert(j < i - 1);
                assert(prev.contains(x));
            }
        }
    }
}

/// The index of the first entry with the given id, if one is there.
fn rep_find(v: &Vec<GraphNode>, id: i32) -> (r: Option<usize>)
    ensures
        r is Some <==> exists|i: int| 0 <= i < v@.len() && v@[i]@.row.id == id as int,
        r matches Some(i) ==> (i < v@.len() && v@[i as int]@.row.id == id as int && forall|k: int|
            0 <= k < i ==> v@[k]@.row.id != id as int),
{
    let mut i: usize = 0;
    while i < v.len()
        invariant
            i <= v@.len(),
            forall|k: int| 0 <= k < i ==> v@[k]@.row.id != id as int,
        decreases v@.len() - i,
    {
        if v[i].node.id == id {
            proof {
                assert(v@[i as int]@.row.id == id as int);
            }
            return Some(i);
        }
        i += 1;
    }
    None
}

} // verus!
