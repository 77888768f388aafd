//! The backing store, modelled as four in-memory relations with
//! row-level read, insert, update and delete operations.
//!
//! The store hands out fresh ids on insert and enforces the link
//! foreign key, exactly like the persisted schema it mirrors.  A
//! surrounding program keeps it in step with its durable counterpart.

use vstd::prelude::*;
use crate::models::{
    opt_id_view, opt_str_ref_view, str_eq, GroupElement, GroupRowV, NodeElement, NodeRowV,
    NodeTypeElement, NodeTypeRowV, SubGroupElement, SubGroupRowV,
};

verus! {

/// Mathematical view of the whole store.
pub ghost struct StoreV {
    pub groups: Seq<GroupRowV>,
    pub subgroups: Seq<SubGroupRowV>,
    pub node_types: Seq<NodeTypeRowV>,
    pub nodes: Seq<NodeRowV>,
    pub next_group_id: int,
    pub next_node_type_id: int,
    pub next_node_id: int,
}

/// View of a sequence of group rows.
pub open spec fn group_rows_view(s: Seq<GroupElement>) -> Seq<GroupRowV> {
    Seq::new(s.len(), |i: int| s[i]@)
}

/// View of a sequence of subgroup rows.
pub open spec fn subgroup_rows_view(s: Seq<SubGroupElement>) -> Seq<SubGroupRowV> {
    Seq::new(s.len(), |i: int| s[i]@)
}

/// View of a sequence of node-type rows.
pub open spec fn node_type_rows_view(s: Seq<NodeTypeElement>) -> Seq<NodeTypeRowV> {
    Seq::new(s.len(), |i: int| s[i]@)
}

/// View of a sequence of node rows.
pub open spec fn node_rows_view(s: Seq<NodeElement>) -> Seq<NodeRowV> {
    Seq::new(s.len(), |i: int| s[i]@)
}

/// Whether some group row carries the given id.
pub open spec fn has_group_row(s: Seq<GroupRowV>, id: int) -> bool {
    exists|i: int| 0 <= i < s.len() && s[i].id == id
}

/// Whether some subgroup row carries the given id.
pub open spec fn has_subgroup_row(s: Seq<SubGroupRowV>, id: int) -> bool {
    exists|i: int| 0 <= i < s.len() && s[i].id == id
}

/// The subgroup row with the given id (meaningful when it exists and
/// ids are distinct).
pub open spec fn subgroup_row(s: Seq<SubGroupRowV>, id: int) -> SubGroupRowV {
    s[choose|i: int| 0 <= i < s.len() && s[i].id == id]
}

/// Whether some node-type row carries the given id.
pub open spec fn has_node_type_row(s: Seq<NodeTypeRowV>, id: int) -> bool {
    exists|i: int| 0 <= i < s.len() && s[i].id == id
}

/// Whether some node row carries the given id.
pub open spec fn has_node_row(s: Seq<NodeRowV>, id: int) -> bool {
    exists|i: int| 0 <= i < s.len() && s[i].id == id
}

/// The index of the node row with the given id (meaningful when it
/// exists and ids are distinct).
pub open spec fn node_row_index(s: Seq<NodeRowV>, id: int) -> int {
    choose|i: int| 0 <= i < s.len() && s[i].id == id
}

/// The node row with the given id.
pub open spec fn node_row(s: Seq<NodeRowV>, id: int) -> NodeRowV {
    s[node_row_index(s, id)]
}

/// The index of the group row with the given id (meaningful when it
/// exists and ids are distinct).
pub open spec fn group_row_index(s: Seq<GroupRowV>, id: int) -> int {
    choose|i: int| 0 <= i < s.len() && s[i].id == id
}

/// A sequence of group rows with the row of the given id removed, if
/// one is there.
pub open spec fn remove_group_row(s: Seq<GroupRowV>, id: int) -> Seq<GroupRowV> {
    if has_group_row(s, id) {
        s.remove(group_row_index(s, id))
    } else {
        s
    }
}

/// No two group rows share an id.
pub open spec fn group_ids_distinct(s: Seq<GroupRowV>) -> bool {
    forall|i: int, j: int| 0 <= i < j < s.len() ==> s[i].id != s[j].id
}

/// No two subgroup rows share an id.
pub open spec fn subgroup_ids_distinct(s: Seq<SubGroupRowV>) -> bool {
    forall|i: int, j: int| 0 <= i < j < s.len() ==> s[i].id != s[j].id
}

/// No two node-type rows share an id.
pub open spec fn node_type_ids_distinct(s: Seq<NodeTypeRowV>) -> bool {
    forall|i: int, j: int| 0 <= i < j < s.len() ==> s[i].id != s[j].id
}

/// No two node rows share an id.
pub open spec fn node_ids_distinct(s: Seq<NodeRowV>) -> bool {
    forall|i: int, j: int| 0 <= i < j < s.len() ==> s[i].id != s[j].id
}

/// A sequence of node rows with the row of the given id removed, if
/// one is there.
pub open spec fn remove_node_row(s: Seq<NodeRowV>, id: int) -> Seq<NodeRowV> {
    if has_node_row(s, id) {
        s.remove(node_row_index(s, id))
    } else {
        s
    }
}

/// The node row `r` with its name and description replaced.
pub open spec fn renamed_node_row(r: NodeRowV, name: Seq<char>, description: Option<Seq<char>>)
    -> NodeRowV {
    NodeRowV {
        id: r.id,
        linked_to_id: r.linked_to_id,
        type_id: r.type_id,
        name: name,
        description: description,
        subgroup_id: r.subgroup_id,
    }
}

/// Whether an insert of a node row with these foreign keys is accepted:
/// the link (if any) names an existing node, the type id names a
/// node-type row, and the subgroup id names a subgroup row.
pub open spec fn insert_node_ok(
    s: StoreV,
    linked_to_id: Option<int>,
    type_id: int,
    subgroup_id: int,
) -> bool {
    &&& match linked_to_id {
        Some(l) => has_node_row(s.nodes, l),
        None => true,
    }
    &&& has_node_type_row(s.node_types, type_id)
    &&& has_subgroup_row(s.subgroups, subgroup_id)
}

/// Whether the node row at index `i` is a duplicate of the given name
/// among nodes of the given type across the whole owning group,
/// leaving out the row named by `exclude`.
pub open spec fn regular_dup_at(
    s: StoreV,
    group_id: int,
    name: Seq<char>,
    exclude: Option<int>,
    type_id: int,
    i: int,
) -> bool {
    &&& 0 <= i < s.nodes.len()
    &&& s.nodes[i].name == name
    &&& s.nodes[i].type_id == type_id
    &&& match exclude {
        Some(e) => s.nodes[i].id != e,
        None => true,
    }
    &&& has_subgroup_row(s.subgroups, s.nodes[i].subgroup_id)
    &&& subgroup_row(s.subgroups, s.nodes[i].subgroup_id).group_id == group_id
}

/// Whether some node row duplicates the given name among nodes of the
/// given type across the whole owning group.
pub open spec fn regular_dup_exists(
    s: StoreV,
    group_id: int,
    name: Seq<char>,
    exclude: Option<int>,
    type_id: int,
) -> bool {
    exists|i: int| regular_dup_at(s, group_id, name, exclude, type_id, i)
}

/// Whether some node row carries the given name and no link.
pub open spec fn root_name_taken(nodes: Seq<NodeRowV>, name: Seq<char>) -> bool {
    exists|i: int|
        0 <= i < nodes.len() && nodes[i].name == name && nodes[i].linked_to_id is None
}

/// Keeps the node rows of one subgroup.
pub open spec fn sg_pred(subgroup_id: int) -> spec_fn(NodeRowV) -> bool {
    |n: NodeRowV| n.subgroup_id == subgroup_id
}

/// Keeps the subgroup rows of one group.
pub open spec fn grp_pred(group_id: int) -> spec_fn(SubGroupRowV) -> bool {
    |g: SubGroupRowV| g.group_id == group_id
}

/// The link of a node row, if present, is below the given bound.
pub open spec fn link_below(n: NodeRowV, bound: int) -> bool {
    match n.linked_to_id {
        Some(l) => l < bound,
        None => true,
    }
}

/// The link of a node row, if present, names an existing node row.
pub open spec fn link_resolves(nodes: Seq<NodeRowV>, n: NodeRowV) -> bool {
    match n.linked_to_id {
        Some(l) => has_node_row(nodes, l),
        None => true,
    }
}

impl StoreV {
    /// Well-formedness: ids are distinct per relation, the id counters
    /// dominate every stored id, and node links stay below the node
    /// counter (a link never names an id the store has yet to assign).
    pub open spec fn wf(self) -> bool {
        &&& group_ids_distinct(self.groups)
        &&& subgroup_ids_distinct(self.subgroups)
        &&& node_type_ids_distinct(self.node_types)
        &&& node_ids_distinct(self.nodes)
        &&& 1 <= self.next_group_id <= i32::MAX
        &&& 1 <= self.next_node_type_id <= i32::MAX
        &&& 1 <= self.next_node_id <= i32::MAX
        &&& forall|i: int| 0 <= i < self.groups.len() ==> self.groups[i].id < self.next_group_id
        &&& forall|i: int|
            0 <= i < self.node_types.len() ==> self.node_types[i].id < self.next_node_type_id
        &&& forall|i: int| 0 <= i < self.nodes.len() ==> self.nodes[i].id < self.next_node_id
        &&& forall|i: int|
            0 <= i < self.nodes.len() ==> link_below(#[trigger] self.nodes[i], self.next_node_id)
    }
}

/// The id counter a snapshot of group rows starts with: one above
/// the largest id, at least 1.
pub open spec fn group_counter_after(s: Seq<GroupRowV>) -> int
    decreases s.len(),
{
    if s.len() == 0 {
        1
    } else {
        let p = group_counter_after(s.drop_last());
        if s.last().id >= p {
            s.last().id + 1
        } else {
            p
        }
    }
}

/// The id counter a snapshot of node-type rows starts with: one
/// above the largest id, at least 1.
pub open spec fn node_type_counter_after(s: Seq<NodeTypeRowV>) -> int
    decreases s.len(),
{
    if s.len() == 0 {
        1
    } else {
        let p = node_type_counter_after(s.drop_last());
        if s.last().id >= p {
            s.last().id + 1
        } else {
            p
        }
    }
}

/// The id counter a snapshot of node rows starts with: one above the
/// largest id, at least 1.
pub open spec fn node_counter_after(s: Seq<NodeRowV>) -> int
    decreases s.len(),
{
    if s.len() == 0 {
        1
    } else {
        let p = node_counter_after(s.drop_last());
        if s.last().id >= p {
            s.last().id + 1
        } else {
            p
        }
    }
}

/// Whether a snapshot of rows can be taken over as a store: ids are
/// distinct per relation, ids leave room for fresh ones, and every
/// node link resolves to a node row.
pub open spec fn rows_loadable(
    groups: Seq<GroupRowV>,
    subgroups: Seq<SubGroupRowV>,
    node_types: Seq<NodeTypeRowV>,
    nodes: Seq<NodeRowV>,
) -> bool {
    &&& group_ids_distinct(groups)
    &&& subgroup_ids_distinct(subgroups)
    &&& node_type_ids_distinct(node_types)
    &&& node_ids_distinct(nodes)
    &&& forall|i: int| 0 <= i < groups.len() ==> #[trigger] groups[i].id < i32::MAX
    &&& forall|i: int| 0 <= i < node_types.len() ==> #[trigger] node_types[i].id < i32::MAX
    &&& forall|i: int| 0 <= i < nodes.len() ==> #[trigger] nodes[i].id < i32::MAX
    &&& forall|i: int| 0 <= i < nodes.len() ==> link_resolves(nodes, #[trigger] nodes[i])
}

/// Filtering a sequence of node rows with pairwise-distinct ids keeps
/// the ids pairwise distinct, and keeps only rows of the original.
pub proof fn lemma_filter_node_rows_distinct(s: Seq<NodeRowV>, pred: spec_fn(NodeRowV) -> bool)
    requires
        node_ids_distinct(s),
    ensures
        node_ids_distinct(s.filter(pred)),
        forall|k: int| 0 <= k < s.filter(pred).len() ==> s.contains(#[trigger] s.filter(pred)[k]),
    decreases s.len(),
{
    reveal(Seq::filter);
    if s.len() > 0 {
        let sp = s.drop_last();
        assert forall|i: int, j: int| 0 <= i < j < sp.len() implies sp[i].id != sp[j].id by {
            assert(sp[i] == s[i] && sp[j] == s[j]);
        }
        lemma_filter_node_rows_distinct(sp, pred);
        let fp = sp.filter(pred);
        assert forall|k: int| 0 <= k < fp.len() implies s.contains(#[trigger] fp[k]) by {
            assert(sp.contains(fp[k]));
            let w = choose|w: int| 0 <= w < sp.len() && sp[w] == fp[k];
            assert(s[w] == fp[k]);
        }
        if pred(s.last()) {
            let f = s.filter(pred);
            assert(f == fp.push(s.last()));
            assert forall|i: int, j: int| 0 <= i < j < f.len() implies f[i].id != f[j].id by {
                if j < f.len() - 1 {
                } else {
                    assert(f[j] == s.last());
                    assert(sp.contains(fp[i]));
                    let w = choose|w: int| 0 <= w < sp.len() && sp[w] == fp[i];
                    assert(s[w].id != s[s.len() - 1].id);
                }
            }
        }
    }
}

/// The four relations, each a vector of rows, plus the id counters.
pub struct Store {
    groups: Vec<GroupElement>,
    subgroups: Vec<SubGroupElement>,
    node_types: Vec<NodeTypeElement>,
    nodes: Vec<NodeElement>,
    next_group: i32,
    next_node_type: i32,
    next_node: i32,
}

impl View for Store {
    type V = StoreV;

    closed spec fn view(&self) -> StoreV {
        StoreV {
            groups: group_rows_view(self.groups@),
            subgroups: subgroup_rows_view(self.subgroups@),
            node_types: node_type_rows_view(self.node_types@),
            nodes: node_rows_view(self.nodes@),
            next_group_id: self.next_group as int,
            next_node_type_id: self.next_node_type as int,
            next_node_id: self.next_node as int,
        }
    }
}

/// Whether a node row with the given id stands in the vector.
fn vec_has_node_id(v: &Vec<NodeElement>, id: i32) -> (b: bool)
    ensures
        b == has_node_row(node_rows_view(v@), id as int),
{
    let mut i: usize = 0;
    while i < v.len()
        invariant
            i <= v@.len(),
            forall|k: int| 0 <= k < i ==> node_rows_view(v@)[k].id != id as int,
        decreases v@.len() - i,
    {
        if v[i].id == id {
            proof {
                assert(node_rows_view(v@)[i as int].id == id as int);
            }
            return true;
        }
        i += 1;
    }
    false
}

/// Whether every node link in the vector resolves to a node row.
fn links_resolve(v: &Vec<NodeElement>) -> (b: bool)
    ensures
        b == forall|i: int|
            0 <= i < v@.len() ==> link_resolves(node_rows_view(v@), #[trigger] node_rows_view(
                v@,
            )[i]),
{
    let mut i: usize = 0;
    while i < v.len()
        invariant
            i <= v@.len(),
            forall|k: int|
                0 <= k < i ==> link_resolves(node_rows_view(v@), #[trigger] node_rows_view(
                    v@,
                )[k]),
        decreases v@.len() - i,
    {
        match v[i].linked_to_id {
            Some(l) => {
                if !vec_has_node_id(v, l) {
                    proof {
                        assert(!link_resolves(node_rows_view(v@), node_rows_view(v@)[i as int]));
                    }
                    return false;
                }
            },
            None => {},
        }
        i += 1;
    }
    true
}

/// Whether the group ids in the vector are pairwise distinct.
fn group_ids_are_distinct(v: &Vec<GroupElement>) -> (b: bool)
    ensures
        b == group_ids_distinct(group_rows_view(v@)),
{
    let ghost s = group_rows_view(v@);
    let mut i: usize = 0;
    while i < v.len()
        invariant
            s == group_rows_view(v@),
            i <= s.len(),
            forall|p: int, q: int| 0 <= p < q < s.len() && p < i ==> s[p].id != s[q].id,
        decreases s.len() - i,
    {
        let mut j: usize = i + 1;
        while j < v.len()
            invariant
                s == group_rows_view(v@),
                i < s.len(),
                i < j <= s.len(),
                forall|q: int| i < q < j ==> s[i as int].id != s[q].id,
            decreases s.len() - j,
        {
            if v[i].id == v[j].id {
                proof {
                    assert(s[i as int].id == s[j as int].id);
                }
                return false;
            }
            j += 1;
        }
        i += 1;
    }
    true
}

/// Whether the subgroup ids in the vector are pairwise distinct.
fn subgroup_ids_are_distinct(v: &Vec<SubGroupElement>) -> (b: bool)
    ensures
        b == subgroup_ids_distinct(subgroup_rows_view(v@)),
{
    let ghost s = subgroup_rows_view(v@);
    let mut i: usize = 0;
    while i < v.len()
        invariant
            s == subgroup_rows_view(v@),
            i <= s.len(),
            forall|p: int, q: int| 0 <= p < q < s.len() && p < i ==> s[p].id != s[q].id,
        decreases s.len() - i,
    {
        let mut j: usize = i + 1;
        while j < v.len()
            invariant
                s == subgroup_rows_view(v@),
                i < s.len(),
                i < j <= s.len(),
                forall|q: int| i < q < j ==> s[i as int].id != s[q].id,
            decreases s.len() - j,
        {
            if v[i].id == v[j].id {
                proof {
                    assert(s[i as int].id == s[j as int].id);
                }
                return false;
            }
            j += 1;
        }
        i += 1;
    }
    true
}

/// Whether the node-type ids in the vector are pairwise distinct.
fn node_type_ids_are_distinct(v: &Vec<NodeTypeElement>) -> (b: bool)
    ensures
        b == node_type_ids_distinct(node_type_rows_view(v@)),
{
    let ghost s = node_type_rows_view(v@);
    let mut i: usize = 0;
    while i < v.len()
        invariant
            s == node_type_rows_view(v@),
            i <= s.len(),
            forall|p: int, q: int| 0 <= p < q < s.len() && p < i ==> s[p].id != s[q].id,
        decreases s.len() - i,
    {
        let mut j: usize = i + 1;
        while j < v.len()
            invariant
                s == node_type_rows_view(v@),
                i < s.len(),
                i < j <= s.len(),
                forall|q: int| i < q < j ==> s[i as int].id != s[q].id,
            decreases s.len() - j,
        {
            if v[i].id == v[j].id {
                proof {
                    assert(s[i as int].id == s[j as int].id);
                }
                return false;
            }
            j += 1;
        }
        i += 1;
    }
    true
}

/// Whether the node ids in the vector are pairwise distinct.
fn node_ids_are_distinct(v: &Vec<NodeElement>) -> (b: bool)
    ensures
        b == node_ids_distinct(node_rows_view(v@)),
{
    let ghost s = node_rows_view(v@);
    let mut i: usize = 0;
    while i < v.len()
        invariant
            s == node_rows_view(v@),
            i <= s.len(),
            forall|p: int, q: int| 0 <= p < q < s.len() && p < i ==> s[p].id != s[q].id,
        decreases s.len() - i,
    {
        let mut j: usize = i + 1;
        while j < v.len()
            invariant
                s == node_rows_view(v@),
                i < s.len(),
                i < j <= s.len(),
                forall|q: int| i < q < j ==> s[i as int].id != s[q].id,
            decreases s.len() - j,
        {
            if v[i].id == v[j].id {
                proof {
                    assert(s[i as int].id == s[j as int].id);
                }
                return false;
            }
            j += 1;
        }
        i += 1;
    }
    true
}

/// The smallest usable id counter above every group id, or nothing
/// when some id leaves no room above it.
fn next_after_group_ids(v: &Vec<GroupElement>) -> (r: Option<i32>)
    ensures
        r is Some <==> forall|i: int|
            0 <= i < v@.len() ==> #[trigger] group_rows_view(v@)[i].id < i32::MAX,
        r matches Some(n) ==> (1 <= n <= i32::MAX && n as int == group_counter_after(
            group_rows_view(v@),
        ) && forall|i: int| 0 <= i < v@.len() ==> #[trigger] group_rows_view(v@)[i].id < n),
{
    let ghost s = group_rows_view(v@);
    let mut next: i32 = 1;
    let mut i: usize = 0;
    while i < v.len()
        invariant
            s == group_rows_view(v@),
            i <= s.len(),
            1 <= next <= i32::MAX,
            next as int == group_counter_after(s.take(i as int)),
            forall|k: int| 0 <= k < i ==> #[trigger] s[k].id < next,
        decreases s.len() - i,
    {
        proof {
            assert(s.take(i + 1).drop_last() =~= s.take(i as int));
            assert(s.take(i + 1).last() == s[i as int]);
        }
        if v[i].id == i32::MAX {
            proof {
                assert(s[i as int].id == i32::MAX);
            }
            return None;
        }
        if v[i].id >= next {
            next = v[i].id + 1;
        }
        i += 1;
    }
    proof {
        assert(s.take(s.len() as int) =~= s);
    }
    Some(next)
}

/// The smallest usable id counter above every node-type id, or
/// nothing when some id leaves no room above it.
fn next_after_node_type_ids(v: &Vec<NodeTypeElement>) -> (r: Option<i32>)
    ensures
        r is Some <==> forall|i: int|
            0 <= i < v@.len() ==> #[trigger] node_type_rows_view(v@)[i].id < i32::MAX,
        r matches Some(n) ==> (1 <= n <= i32::MAX && n as int == node_type_counter_after(
            node_type_rows_view(v@),
        ) && forall|i: int| 0 <= i < v@.len() ==> #[trigger] node_type_rows_view(v@)[i].id < n),
{
    let ghost s = node_type_rows_view(v@);
    let mut next: i32 = 1;
    let mut i: usize = 0;
    while i < v.len()
        invariant
            s == node_type_rows_view(v@),
            i <= s.len(),
            1 <= next <= i32::MAX,
            next as int == node_type_counter_after(s.take(i as int)),
            forall|k: int| 0 <= k < i ==> #[trigger] s[k].id < next,
        decreases s.len() - i,
    {
        proof {
            assert(s.take(i + 1).drop_last() =~= s.take(i as int));
            assert(s.take(i + 1).last() == s[i as int]);
        }
        if v[i].id == i32::MAX {
            proof {
                assert(s[i as int].id == i32::MAX);
            }
            return None;
        }
        if v[i].id >= next {
            next = v[i].id + 1;
        }
        i += 1;
    }
    proof {
        assert(s.take(s.len() as int) =~= s);
    }
    Some(next)
}

/// The smallest usable id counter above every node id, or nothing
/// when some id leaves no room above it.
fn next_after_node_ids(v: &Vec<NodeElement>) -> (r: Option<i32>)
    ensures
        r is Some <==> forall|i: int|
            0 <= i < v@.len() ==> #[trigger] node_rows_view(v@)[i].id < i32::MAX,
        r matches Some(n) ==> (1 <= n <= i32::MAX && n as int == node_counter_after(
            node_rows_view(v@),
        ) && forall|i: int| 0 <= i < v@.len() ==> #[trigger] node_rows_view(v@)[i].id < n),
{
    let ghost s = node_rows_view(v@);
    let mut next: i32 = 1;
    let mut i: usize = 0;
    while i < v.len()
        invariant
            s == node_rows_view(v@),
            i <= s.len(),
            1 <= next <= i32::MAX,
            next as int == node_counter_after(s.take(i as int)),
            forall|k: int| 0 <= k < i ==> #[trigger] s[k].id < next,
        decreases s.len() - i,
    {
        proof {
            assert(s.take(i + 1).drop_last() =~= s.take(i as int));
            assert(s.take(i + 1).last() == s[i as int]);
        }
        if v[i].id == i32::MAX {
            proof {
                assert(s[i as int].id == i32::MAX);
            }
            return None;
        }
        if v[i].id >= next {
            next = v[i].id + 1;
        }
        i += 1;
    }
    proof {
        assert(s.take(s.len() as int) =~= s);
    }
    Some(next)
}

impl Store {
    /// Well-formedness of the concrete store.
    pub open spec fn wf(&self) -> bool {
        self@.wf()
    }

    /// An empty store.
    pub fn new() -> (s: Store)
        ensures
            s.wf(),
            s@.groups =~= Seq::<GroupRowV>::empty(),
            s@.subgroups =~= Seq::<SubGroupRowV>::empty(),
            s@.node_types =~= Seq::<NodeTypeRowV>::empty(),
            s@.nodes =~= Seq::<NodeRowV>::empty(),
            s@.next_group_id == 1,
            s@.next_node_type_id == 1,
            s@.next_node_id == 1,
    {
        Store {
            groups: Vec::new(),
            subgroups: Vec::new(),
            node_types: Vec::new(),
            nodes: Vec::new(),
            next_group: 1,
            next_node_type: 1,
            next_node: 1,
        }
    }

    /// Takes over a snapshot of rows, after checking that ids are
    /// distinct per relation, that ids leave room for fresh ones, and
    /// that every node link resolves; refuses the snapshot otherwise.
    pub fn from_rows(
        groups: Vec<GroupElement>,
        subgroups: Vec<SubGroupElement>,
        node_types: Vec<NodeTypeElement>,
        nodes: Vec<NodeElement>,
    ) -> (r: Option<Store>)
        ensures
            r is Some <==> rows_loadable(
                group_rows_view(groups@),
                subgroup_rows_view(subgroups@),
                node_type_rows_view(node_types@),
                node_rows_view(nodes@),
            ),
            r matches Some(s) ==> ({
                &&& s.wf()
                &&& s@.groups == group_rows_view(groups@)
                &&& s@.subgroups == subgroup_rows_view(subgroups@)
                &&& s@.node_types == node_type_rows_view(node_types@)
                &&& s@.nodes == node_rows_view(nodes@)
                &&& s@.next_group_id == group_counter_after(group_rows_view(groups@))
                &&& s@.next_node_type_id == node_type_counter_after(
                    node_type_rows_view(node_types@),
                )
                &&& s@.next_node_id == node_counter_after(node_rows_view(nodes@))
            }),
    {
        if !group_ids_are_distinct(&groups) || !subgroup_ids_are_distinct(&subgroups)
            || !node_type_ids_are_distinct(&node_types) || !node_ids_are_distinct(&nodes) {
            return None;
        }
        let next_group = match next_after_group_ids(&groups) {
            Some(n) => n,
            None => {
                return None;
            },
        };
        let next_node_type = match next_after_node_type_ids(&node_types) {
            Some(n) => n,
            None => {
                return None;
            },
        };
        let next_node = match next_after_node_ids(&nodes) {
            Some(n) => n,
            None => {
                return None;
            },
        };
        if !links_resolve(&nodes) {
            return None;
        }
        let s = Store {
            groups,
            subgroups,
            node_types,
            nodes,
            next_group,
            next_node_type,
            next_node,
        };
        proof {
            let ns = node_rows_view(nodes@);
            assert(s@.nodes =~= ns);
            assert forall|i: int| 0 <= i < s@.nodes.len() implies link_below(
                #[trigger] s@.nodes[i],
                s@.next_node_id,
            ) by {
                assert(link_resolves(ns, ns[i]));
                match ns[i].linked_to_id {
                    Some(l) => {
                        let j = choose|j: int| 0 <= j < ns.len() && ns[j].id == l;
                        assert(ns[j].id < next_node as int);
                    },
                    None => {},
                }
            }
        }
        Some(s)
    }

    /// The index of the group row with the given id, if one is there.
    fn find_group_index(&self, id: i32) -> (r: Option<usize>)
        requires
            self.wf(),
        ensures
            r is Some <==> has_group_row(self@.groups, id as int),
            r matches Some(i) ==> (
                i < self@.groups.len() && i as int == group_row_index(self@.groups, id as int)
            ),
    {
        let mut i: usize = 0;
        while i < self.groups.len()
            invariant
                self.wf(),
                i <= self@.groups.len(),
                forall|k: int| 0 <= k < i ==> self@.groups[k].id != id as int,
            decreases self@.groups.len() - i,
        {
            if self.groups[i].id == id {
                proof {
                    assert(self@.groups[i as int].id == id as int);
                    assert(has_group_row(self@.groups, id as int));
                    let ci = group_row_index(self@.groups, id as int);
                    assert(0 <= ci < self@.groups.len() && self@.groups[ci].id == id as int);
                    assert(ci == i as int);
                }
                return Some(i);
            }
            i += 1;
        }
        None
    }

    /// Inserts a group row under a fresh id and returns the id.
    pub fn insert_group(&mut self, name: String) -> (id: i32)
        requires
            old(self).wf(),
            old(self)@.next_group_id < i32::MAX,
        ensures
            final(self).wf(),
            id as int == old(self)@.next_group_id,
            final(self)@.groups =~= old(self)@.groups.push(
                (GroupRowV { id: id as int, name: name@ })
            ),
            final(self)@.next_group_id == old(self)@.next_group_id + 1,
            final(self)@.subgroups == old(self)@.subgroups,
            final(self)@.node_types == old(self)@.node_types,
            final(self)@.nodes == old(self)@.nodes,
            final(self)@.next_node_type_id == old(self)@.next_node_type_id,
            final(self)@.next_node_id == old(self)@.next_node_id,
    {
        let id = self.next_group;
        self.groups.push(GroupElement { id, name });
        self.next_group = id + 1;
        proof {
            assert(final(self)@.groups =~= old(self)@.groups.push(
                GroupRowV { id: id as int, name: final(self)@.groups.last().name },
            ));
        }
        id
    }

    /// Rewrites the name of the group row with the given id; reports
    /// whether such a row was there.
    pub fn update_group_name(&mut self, id: i32, name: &str) -> (found: bool)
        requires
            old(self).wf(),
        ensures
            final(self).wf(),
            found == has_group_row(old(self)@.groups, id as int),
            found ==> final(self)@.groups =~= old(self)@.groups.update(
                group_row_index(old(self)@.groups, id as int),
                (GroupRowV { id: id as int, name: name@ }),
            ),
            !found ==> final(self)@.groups == old(self)@.groups,
            final(self)@.subgroups == old(self)@.subgroups,
            final(self)@.node_types == old(self)@.node_types,
            final(self)@.nodes == old(self)@.nodes,
            final(self)@.next_group_id == old(self)@.next_group_id,
            final(self)@.next_node_type_id == old(self)@.next_node_type_id,
            final(self)@.next_node_id == old(self)@.next_node_id,
    {
        match self.find_group_index(id) {
            Some(i) => {
                let slot = &mut self.groups[i];
                *slot = GroupElement { id, name: name.to_owned() };
                proof {
                    assert(final(self)@.groups =~= old(self)@.groups.update(
                        i as int,
                        final(self)@.groups[i as int],
                    ));
                }
                true
            },
            None => false,
        }
    }

    /// Removes the group row with the given id, if one is there.
    /// Removal is idempotent: a missing id leaves the store unchanged.
    pub fn delete_group(&mut self, id: i32)
        requires
            old(self).wf(),
        ensures
            final(self).wf(),
            final(self)@.groups =~= remove_group_row(old(self)@.groups, id as int),
            final(self)@.subgroups == old(self)@.subgroups,
            final(self)@.node_types == old(self)@.node_types,
            final(self)@.nodes == old(self)@.nodes,
            final(self)@.next_group_id == old(self)@.next_group_id,
            final(self)@.next_node_type_id == old(self)@.next_node_type_id,
            final(self)@.next_node_id == old(self)@.next_node_id,
    {
        match self.find_group_index(id) {
            Some(i) => {
                self.groups.remove(i);
                proof {
                    assert(final(self)@.groups =~= old(self)@.groups.remove(i as int));
                    assert forall|p: int, q: int|
                        0 <= p < q < final(self)@.groups.len() implies final(self)@.groups[p].id
                        != final(self)@.groups[q].id by {
                        let s = old(self)@.groups;
                        let pi: int = if p < i as int { p } else { p + 1 };
                        let qi: int = if q < i as int { q } else { q + 1 };
                        assert(final(self)@.groups[p] == s[pi]);
                        assert(final(self)@.groups[q] == s[qi]);
                    }
                }
            },
            None => {},
        }
    }

    /// The index of the node row with the given id, if one is there.
    fn find_node_index(&self, id: i32) -> (r: Option<usize>)
        requires
            self.wf(),
        ensures
            r is Some <==> has_node_row(self@.nodes, id as int),
            r matches Some(i) ==> (
                i < self@.nodes.len() && i as int == node_row_index(self@.nodes, id as int)
            ),
    {
        let mut i: usize = 0;
        while i < self.nodes.len()
            invariant
                self.wf(),
                i <= self@.nodes.len(),
                forall|k: int| 0 <= k < i ==> self@.nodes[k].id != id as int,
            decreases self@.nodes.len() - i,
        {
            if self.nodes[i].id == id {
                proof {
                    assert(self@.nodes[i as int].id == id as int);
                    assert(has_node_row(self@.nodes, id as int));
                    let ci = node_row_index(self@.nodes, id as int);
                    assert(0 <= ci < self@.nodes.len() && self@.nodes[ci].id == id as int);
                    assert(ci == i as int);
                }
                return Some(i);
            }
            i += 1;
        }
        None
    }

    /// Whether a node row with the given id is there.
    pub fn node_exists(&self, id: i32) -> (b: bool)
        ensures
            b == has_node_row(self@.nodes, id as int),
    {
        let mut i: usize = 0;
        while i < self.nodes.len()
            invariant
                i <= self@.nodes.len(),
                forall|k: int| 0 <= k < i ==> self@.nodes[k].id != id as int,
            decreases self@.nodes.len() - i,
        {
            if self.nodes[i].id == id {
                proof {
                    assert(self@.nodes[i as int].id == id as int);
                }
                return true;
            }
            i += 1;
        }
        false
    }

    /// Whether a subgroup row with the given id is there.
    pub fn subgroup_exists(&self, id: i32) -> (b: bool)
        ensures
            b == has_subgroup_row(self@.subgroups, id as int),
    {
        let mut i: usize = 0;
        while i < self.subgroups.len()
            invariant
                i <= self@.subgroups.len(),
                forall|k: int| 0 <= k < i ==> self@.subgroups[k].id != id as int,
            decreases self@.subgroups.len() - i,
        {
            if self.subgroups[i].id == id {
                proof {
                    assert(self@.subgroups[i as int].id == id as int);
                }
                return true;
            }
            i += 1;
        }
        false
    }

    /// Whether a node-type row with the given id is there.
    pub fn node_type_exists(&self, id: i32) -> (b: bool)
        ensures
            b == has_node_type_row(self@.node_types, id as int),
    {
        let mut i: usize = 0;
        while i < self.node_types.len()
            invariant
                i <= self@.node_types.len(),
                forall|k: int| 0 <= k < i ==> self@.node_types[k].id != id as int,
            decreases self@.node_types.len() - i,
        {
            if self.node_types[i].id == id {
                proof {
                    assert(self@.node_types[i as int].id == id as int);
                }
                return true;
            }
            i += 1;
        }
        false
    }

    /// The node row with the given id, if one is there.
    pub fn get_node(&self, id: i32) -> (r: Option<&NodeElement>)
        requires
            self.wf(),
        ensures
            r is Some <==> has_node_row(self@.nodes, id as int),
            r matches Some(n) ==> n@ == node_row(self@.nodes, id as int),
    {
        match self.find_node_index(id) {
            Some(i) => Some(&self.nodes[i]),
            None => None,
        }
    }

    /// Inserts a node row under a fresh id and returns the id, or
    /// refuses the insert when a foreign key does not resolve.
    pub fn insert_node(
        &mut self,
        linked_to_id: Option<i32>,
        type_id: i32,
        name: &str,
        description: Option<&str>,
        subgroup_id: i32,
    ) -> (r: Option<i32>)
        requires
            old(self).wf(),
            old(self)@.next_node_id < i32::MAX,
        ensures
            final(self).wf(),
            r is Some <==> insert_node_ok(
                old(self)@,
                opt_id_view(linked_to_id),
                type_id as int,
                subgroup_id as int,
            ),
            r matches Some(id) ==> ({
                &&& id as int == old(self)@.next_node_id
                &&& final(self)@.nodes =~= old(self)@.nodes.push(
                    (NodeRowV {
                        id: id as int,
                        linked_to_id: opt_id_view(linked_to_id),
                        type_id: type_id as int,
                        name: name@,
                        description: opt_str_ref_view(description),
                        subgroup_id: subgroup_id as int,
                    })
                )
                &&& final(self)@.next_node_id == old(self)@.next_node_id + 1
                &&& final(self)@.groups == old(self)@.groups
                &&& final(self)@.subgroups == old(self)@.subgroups
                &&& final(self)@.node_types == old(self)@.node_types
                &&& final(self)@.next_group_id == old(self)@.next_group_id
                &&& final(self)@.next_node_type_id == old(self)@.next_node_type_id
            }),
            r is None ==> final(self)@ == old(self)@,
    {
        let link_ok = match linked_to_id {
            Some(l) => self.node_exists(l),
            None => true,
        };
        if !link_ok || !self.node_type_exists(type_id) || !self.subgroup_exists(subgroup_id) {
            return None;
        }
        let id = self.next_node;
        let row = NodeElement {
            id,
            linked_to_id,
            type_id,
            name: name.to_owned(),
            description: match description {
                Some(d) => Some(d.to_owned()),
                None => None,
            },
            subgroup_id,
        };
        self.nodes.push(row);
        self.next_node = id + 1;
        proof {
            assert(final(self)@.nodes =~= old(self)@.nodes.push(
                final(self)@.nodes.last(),
            ));
        }
        Some(id)
    }

    /// Rewrites the name and description of the node row with the
    /// given id; reports whether such a row was there.
    pub fn update_node(&mut self, id: i32, name: &str, description: Option<&str>) -> (found: bool)
        requires
            old(self).wf(),
        ensures
            final(self).wf(),
            found == has_node_row(old(self)@.nodes, id as int),
            found ==> final(self)@.nodes =~= old(self)@.nodes.update(
                node_row_index(old(self)@.nodes, id as int),
                renamed_node_row(
                    node_row(old(self)@.nodes, id as int),
                    name@,
                    opt_str_ref_view(description),
                ),
            ),
            !found ==> final(self)@.nodes == old(self)@.nodes,
            final(self)@.groups == old(self)@.groups,
            final(self)@.subgroups == old(self)@.subgroups,
            final(self)@.node_types == old(self)@.node_types,
            final(self)@.next_group_id == old(self)@.next_group_id,
            final(self)@.next_node_type_id == old(self)@.next_node_type_id,
            final(self)@.next_node_id == old(self)@.next_node_id,
    {
        match self.find_node_index(id) {
            Some(i) => {
                let updated = NodeElement {
                    id: self.nodes[i].id,
                    linked_to_id: self.nodes[i].linked_to_id,
                    type_id: self.nodes[i].type_id,
                    name: name.to_owned(),
                    description: match description {
                        Some(d) => Some(d.to_owned()),
                        None => None,
                    },
                    subgroup_id: self.nodes[i].subgroup_id,
                };
                let slot = &mut self.nodes[i];
                *slot = updated;
                proof {
                    assert(final(self)@.nodes =~= old(self)@.nodes.update(
                        i as int,
                        final(self)@.nodes[i as int],
                    ));
                }
                true
            },
            None => false,
        }
    }

    /// Removes the node row with the given id, if one is there.
    pub fn delete_node(&mut self, id: i32)
        requires
            old(self).wf(),
        ensures
            final(self).wf(),
            final(self)@.nodes =~= remove_node_row(old(self)@.nodes, id as int),
            final(self)@.groups == old(self)@.groups,
            final(self)@.subgroups == old(self)@.subgroups,
            final(self)@.node_types == old(self)@.node_types,
            final(self)@.next_group_id == old(self)@.next_group_id,
            final(self)@.next_node_type_id == old(self)@.next_node_type_id,
            final(self)@.next_node_id == old(self)@.next_node_id,
    {
        match self.find_node_index(id) {
            Some(i) => {
                self.nodes.remove(i);
                proof {
                    assert(final(self)@.nodes =~= old(self)@.nodes.remove(i as int));
                    assert forall|p: int|
                        0 <= p < final(self)@.nodes.len() implies final(self)@.nodes[p]
                        == old(self)@.nodes[if p < i as int { p } else { p + 1 }] by {}
                }
            },
            None => {},
        }
    }

    /// The node rows of one subgroup, in store order.
    pub fn nodes_of_subgroup(&self, subgroup_id: i32) -> (r: Vec<NodeElement>)
        ensures
            node_rows_view(r@) =~= self@.nodes.filter(sg_pred(subgroup_id as int)),
    {
        let mut out: Vec<NodeElement> = Vec::new();
        let mut i: usize = 0;
        while i < self.nodes.len()
            invariant
                i <= self@.nodes.len(),
                node_rows_view(out@) =~= self@.nodes.take(i as int).filter(
                    sg_pred(subgroup_id as int),
                ),
            decreases self@.nodes.len() - i,
        {
            proof {
                broadcast use Seq::lemma_filter_push;

                assert(self@.nodes.take(i + 1) =~= self@.nodes.take(i as int).push(
                    self@.nodes[i as int],
                ));
            }
            if self.nodes[i].subgroup_id == subgroup_id {
                out.push(self.nodes[i].duplicate());
                proof {
                    assert(node_rows_view(out@) =~= node_rows_view(out@.drop_last()).push(
                        out@.last()@,
                    ));
                }
            }
            i += 1;
        }
        proof {
            assert(self@.nodes.take(self@.nodes.len() as int) =~= self@.nodes);
        }
        out
    }

    /// The subgroup rows of one group, in store order.
    pub fn subgroups_of_group(&self, group_id: i32) -> (r: Vec<SubGroupElement>)
        ensures
            subgroup_rows_view(r@) =~= self@.subgroups.filter(grp_pred(group_id as int)),
    {
        let mut out: Vec<SubGroupElement> = Vec::new();
        let mut i: usize = 0;
        while i < self.subgroups.len()
            invariant
                i <= self@.subgroups.len(),
                subgroup_rows_view(out@) =~= self@.subgroups.take(i as int).filter(
                    grp_pred(group_id as int),
                ),
            decreases self@.subgroups.len() - i,
        {
            proof {
                broadcast use Seq::lemma_filter_push;

                assert(self@.subgroups.take(i + 1) =~= self@.subgroups.take(i as int).push(
                    self@.subgroups[i as int],
                ));
            }
            if self.subgroups[i].group_id == group_id {
                out.push(self.subgroups[i].duplicate());
                proof {
                    assert(subgroup_rows_view(out@) =~= subgroup_rows_view(
                        out@.drop_last(),
                    ).push(out@.last()@));
                }
            }
            i += 1;
        }
        proof {
            assert(self@.subgroups.take(self@.subgroups.len() as int) =~= self@.subgroups);
        }
        out
    }

    /// Whether some node of the given type duplicates the name across
    /// the whole owning group, leaving out the row named by `exclude`.
    pub fn regular_name_exists(
        &self,
        group_id: i32,
        name: &str,
        exclude: Option<i32>,
        type_id: i32,
    ) -> (b: bool)
        requires
            self.wf(),
        ensures
            b == regular_dup_exists(
                self@,
                group_id as int,
                name@,
                opt_id_view(exclude),
                type_id as int,
            ),
    {
        let mut i: usize = 0;
        while i < self.nodes.len()
            invariant
                self.wf(),
                i <= self@.nodes.len(),
                forall|k: int|
                    0 <= k < i ==> !regular_dup_at(
                        self@,
                        group_id as int,
                        name@,
                        opt_id_view(exclude),
                        type_id as int,
                        k,
                    ),
            decreases self@.nodes.len() - i,
        {
            let n = &self.nodes[i];
            let excluded = match exclude {
                Some(e) => n.id == e,
                None => false,
            };
            if !excluded && n.type_id == type_id && str_eq(n.name.as_str(), name) {
                if let Some(g) = self.group_of_subgroup(n.subgroup_id) {
                    if g == group_id {
                        proof {
                            assert(regular_dup_at(
                                self@,
                                group_id as int,
                                name@,
                                opt_id_view(exclude),
                                type_id as int,
                                i as int,
                            ));
                        }
                        return true;
                    }
                }
            }
            i += 1;
        }
        false
    }

    /// The owning group of a subgroup row, if the row is there.
    pub fn group_of_subgroup(&self, subgroup_id: i32) -> (r: Option<i32>)
        requires
            self.wf(),
        ensures
            r is Some <==> has_subgroup_row(self@.subgroups, subgroup_id as int),
            r matches Some(g) ==> g as int == subgroup_row(
                self@.subgroups,
                subgroup_id as int,
            ).group_id,
    {
        let mut i: usize = 0;
        while i < self.subgroups.len()
            invariant
                self.wf(),
                i <= self@.subgroups.len(),
                forall|k: int| 0 <= k < i ==> self@.subgroups[k].id != subgroup_id as int,
            decreases self@.subgroups.len() - i,
        {
            if self.subgroups[i].id == subgroup_id {
                proof {
                    assert(self@.subgroups[i as int].id == subgroup_id as int);
                    assert(has_subgroup_row(self@.subgroups, subgroup_id as int));
                    let ci = choose|c: int|
                        0 <= c < self@.subgroups.len() && self@.subgroups[c].id
                            == subgroup_id as int;
                    assert(ci == i as int);
                }
                return Some(self.subgroups[i].group_id);
            }
            i += 1;
        }
        None
    }

    /// Whether some node row carries the given name and no link.
    pub fn root_name_exists(&self, name: &str) -> (b: bool)
        ensures
            b == root_name_taken(self@.nodes, name@),
    {
        let mut i: usize = 0;
        while i < self.nodes.len()
            invariant
                i <= self@.nodes.len(),
                forall|k: int|
                    0 <= k < i ==> !(self@.nodes[k].name == name@
                        && self@.nodes[k].linked_to_id is None),
            decreases self@.nodes.len() - i,
        {
            let n = &self.nodes[i];
            if n.linked_to_id.is_none() && str_eq(n.name.as_str(), name) {
                proof {
                    assert(self@.nodes[i as int].name == name@);
                }
                return true;
            }
            i += 1;
        }
        false
    }

    /// The group rows, in store order.
    pub fn groups_rows(&self) -> (r: &Vec<GroupElement>)
        ensures
            group_rows_view(r@) == self@.groups,
    {
        &self.groups
    }

    /// The subgroup rows, in store order.
    pub fn subgroups_rows(&self) -> (r: &Vec<SubGroupElement>)
        ensures
            subgroup_rows_view(r@) == self@.subgroups,
    {
        &self.subgroups
    }

    /// The node-type rows, in store order.
    pub fn node_types_rows(&self) -> (r: &Vec<NodeTypeElement>)
        ensures
            node_type_rows_view(r@) == self@.node_types,
    {
        &self.node_types
    }

    /// The node rows, in store order.
    pub fn nodes_rows(&self) -> (r: &Vec<NodeElement>)
        ensures
            node_rows_view(r@) == self@.nodes,
    {
        &self.nodes
    }

    /// The id the next inserted group row would receive.
    pub fn next_group_id(&self) -> (r: i32)
        ensures
            r as int == self@.next_group_id,
    {
        self.next_group
    }

    /// The id the next inserted node row would receive.
    pub fn next_node_id(&self) -> (r: i32)
        ensures
            r as int == self@.next_node_id,
    {
        self.next_node
    }
}

} // verus!
