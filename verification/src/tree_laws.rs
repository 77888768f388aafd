//! Laws of the node tree: adjacency symmetry, the root/children
//! partition of a hydrated tree, and the agreement of a creation
//! with a fresh hydration of the grown row set.

use vstd::prelude::*;
use crate::models::NodeRowV;
use crate::nodes_mod::{
    children_upto, gn_contains_id, gn_ids_distinct, graph_node_of, hydrate_ok, hydrated,
    lemma_children_upto, pass_one, register_node, resolved_kind, root_ids_upto, GraphNodeV,
    NodeType, TreeV,
};
use crate::store::{has_node_row, node_ids_distinct, node_row};

verus! {

/// Adjacency symmetry: on a well-formed tree, a loaded node names a
/// loaded parent exactly when that parent's children name it back.
pub proof fn lemma_adjacency_symmetry(t: TreeV, n: int, p: int)
    requires
        t.wf(),
        t.contains_id(n),
        t.contains_id(p),
    ensures
        t.node_at(n).parent_node_id == Some(p) <==> t.node_at(p).children.contains(n),
{
    let ni = t.index_of(n);
    let pi = t.index_of(p);
    assert(0 <= ni < t.nodes.len() && t.nodes[ni].id() == n);
    assert(0 <= pi < t.nodes.len() && t.nodes[pi].id() == p);
    if t.node_at(n).parent_node_id == Some(p) {
        assert(t.parent_attached_at(ni));
        assert(t.node_at(p).children.contains(t.nodes[ni].id()));
    }
    if t.node_at(p).children.contains(n) {
        let k = choose|k: int|
            0 <= k < t.node_at(p).children.len() && t.node_at(p).children[k] == n;
        assert(t.nodes[pi].children[k] == n);
        assert(t.child_entry_ok(pi, k));
        assert(t.node_at(n).parent_node_id == Some(t.nodes[pi].id()));
    }
}

/// The lengths of the children lists of the first `i` nodes, summed.
pub open spec fn children_total(ns: Seq<GraphNodeV>, i: int) -> int
    decreases i,
{
    if i <= 0 {
        0
    } else {
        children_total(ns, i - 1) + ns[i - 1].children.len()
    }
}

/// The children collected from the first `j` nodes across the first
/// `i` ids, summed.
pub open spec fn gathered_total(base: Seq<GraphNodeV>, i: int, j: int) -> int
    decreases i,
{
    if i <= 0 {
        0
    } else {
        gathered_total(base, i - 1, j) + children_upto(base, j, base[i - 1].id()).len()
    }
}

/// Whether the placement parent of the node at `j` is among the first
/// `i` ids.
pub open spec fn parent_among(base: Seq<GraphNodeV>, i: int, j: int) -> bool {
    match base[j].parent_node_id {
        Some(p) => exists|k: int| 0 <= k < i && base[k].id() == p,
        None => false,
    }
}

/// Before any node is walked, nothing has been gathered.
proof fn lemma_gathered_total_zero(base: Seq<GraphNodeV>, i: int)
    ensures
        gathered_total(base, i, 0) == 0,
    decreases i,
{
    if i > 0 {
        lemma_gathered_total_zero(base, i - 1);
    }
}

/// Walking one more node grows the gathered total by one exactly when
/// its placement parent is among the first `i` ids.
proof fn lemma_gathered_total_step(base: Seq<GraphNodeV>, i: int, j: int)
    requires
        gn_ids_distinct(base),
        i <= base.len(),
        0 <= j,
    ensures
        gathered_total(base, i, j + 1) == gathered_total(base, i, j) + (if parent_among(
            base,
            i,
            j,
        ) {
            1int
        } else {
            0int
        }),
    decreases i,
{
    if i > 0 {
        lemma_gathered_total_step(base, i - 1, j);
        let id = base[i - 1].id();
        if base[j].parent_node_id == Some(id) {
            assert(children_upto(base, j + 1, id).len() == children_upto(base, j, id).len() + 1);
            assert(parent_among(base, i, j));
            assert(!parent_among(base, i - 1, j)) by {
                if parent_among(base, i - 1, j) {
                    let k = choose|k: int| 0 <= k < i - 1 && base[k].id() == id;
                    assert(base[k].id() != base[i - 1].id());
                }
            }
        } else {
            assert(children_upto(base, j + 1, id).len() == children_upto(base, j, id).len());
            assert(parent_among(base, i, j) == parent_among(base, i - 1, j)) by {
                if parent_among(base, i, j) && !parent_among(base, i - 1, j) {
                    let k = choose|k: int|
                        0 <= k < i && base[k].id() == base[j].parent_node_id->Some_0;
                    assert(k == i - 1);
                }
            }
        }
    }
}

/// Walking the first `j` nodes gathers one child entry for each of
/// them whose placement parent is loaded.
proof fn lemma_gathered_counts_attached(t: TreeV, base: Seq<GraphNodeV>, j: int)
    requires
        gn_ids_distinct(base),
        t.nodes == hydrated(base),
        0 <= j <= base.len(),
    ensures
        root_ids_upto(t, j).len() + gathered_total(base, base.len() as int, j) == j,
    decreases j,
{
    if j == 0 {
        lemma_gathered_total_zero(base, base.len() as int);
    } else {
        lemma_gathered_counts_attached(t, base, j - 1);
        lemma_gathered_total_step(base, base.len() as int, j - 1);
        assert(t.nodes[j - 1].parent_node_id == base[j - 1].parent_node_id);
        assert(t.root_at(j - 1) <==> !parent_among(base, base.len() as int, j - 1)) by {
            match base[j - 1].parent_node_id {
                Some(p) => {
                    if t.contains_id(p) {
                        let k = choose|k: int|
                            0 <= k < t.nodes.len() && t.nodes[k].id() == p;
                        assert(base[k].id() == p);
                        assert(parent_among(base, base.len() as int, j - 1));
                    }
                    if parent_among(base, base.len() as int, j - 1) {
                        let k = choose|k: int| 0 <= k < base.len() && base[k].id() == p;
                        assert(t.nodes[k].id() == p);
                        assert(t.contains_id(p));
                    }
                },
                None => {},
            }
        }
    }
}

/// The children lists of a hydrated tree hold, together, exactly what
/// was gathered for every id.
proof fn lemma_children_total_is_gathered(t: TreeV, base: Seq<GraphNodeV>, i: int)
    requires
        t.nodes == hydrated(base),
        0 <= i <= base.len(),
    ensures
        children_total(t.nodes, i) == gathered_total(base, i, base.len() as int),
    decreases i,
{
    if i > 0 {
        lemma_children_total_is_gathered(t, base, i - 1);
        assert(t.nodes[i - 1].children == children_upto(
            base,
            base.len() as int,
            base[i - 1].id(),
        ));
    }
}

/// The root/children partition of a hydrated tree: the number of
/// roots plus the lengths of all children lists together equals the
/// number of loaded nodes.
pub proof fn lemma_roots_children_partition(t: TreeV, base: Seq<GraphNodeV>)
    requires
        gn_ids_distinct(base),
        t.nodes == hydrated(base),
    ensures
        root_ids_upto(t, t.nodes.len() as int).len() + children_total(
            t.nodes,
            t.nodes.len() as int,
        ) == t.nodes.len(),
{
    let n = base.len() as int;
    lemma_gathered_counts_attached(t, base, n);
    lemma_children_total_is_gathered(t, base, n);
}

/// `children_upto` reads only the first `j` nodes: a longer sequence
/// with the same prefix gathers the same children.
proof fn lemma_children_upto_prefix(b1: Seq<GraphNodeV>, b2: Seq<GraphNodeV>, j: int, id: int)
    requires
        0 <= j <= b1.len(),
        j <= b2.len(),
        forall|k: int| 0 <= k < j ==> b1[k] == b2[k],
    ensures
        children_upto(b1, j, id) == children_upto(b2, j, id),
    decreases j,
{
    if j > 0 {
        lemma_children_upto_prefix(b1, b2, j - 1, id);
    }
}

/// Round trip: hydrating the row set grown by a freshly created row
/// rebuilds exactly the tree that registering the corresponding node
/// in the hydrated old rows yields — the same parents and the same
/// children, in the same order.
pub proof fn lemma_create_load_round_trip(base: Seq<GraphNodeV>, g: GraphNodeV)
    requires
        gn_ids_distinct(base),
        g.children == Seq::<int>::empty(),
        g.parent_node_id == g.node.placement(),
        g.parent_node_id != Some(g.id()),
        !gn_contains_id(base, g.id()),
        forall|k: int|
            0 <= k < base.len() ==> #[trigger] base[k].parent_node_id != Some(g.id()),
    ensures
        hydrated(base.push(g)) =~= register_node(hydrated(base), g),
{
    let n = base.len() as int;
    let b2 = base.push(g);
    let h1 = hydrated(base);
    let h2 = hydrated(b2);
    let reg = register_node(h1, g);
    assert(gn_ids_distinct(b2)) by {
        assert forall|i: int, j: int|
            0 <= i < j < b2.len() implies b2[i].id() != b2[j].id() by {
            if j == n {
                assert(b2[i] == base[i]);
                assert(gn_contains_id(base, base[i].id()));
            }
        }
    }
    // The new node gathers no children: nothing names it as parent.
    assert(children_upto(b2, n + 1, g.id()) =~= Seq::<int>::empty()) by {
        lemma_children_upto(b2, n + 1, g.id());
        if children_upto(b2, n + 1, g.id()).len() > 0 {
            let x = children_upto(b2, n + 1, g.id())[0];
            assert(children_upto(b2, n + 1, g.id()).contains(x));
            let w = choose|w: int|
                0 <= w < n + 1 && b2[w].id() == x && b2[w].parent_node_id == Some(g.id());
            if w < n {
                assert(base[w].parent_node_id != Some(g.id()));
            }
        }
    }
    // Old ids gather their old children, plus the new node when it
    // names them.
    assert forall|i: int| 0 <= i < n implies h2[i] == reg[i] by {
        let id = base[i].id();
        lemma_children_upto_prefix(base, b2, n, id);
        assert(children_upto(b2, n + 1, id) == if g.parent_node_id == Some(id) {
            children_upto(b2, n, id).push(g.id())
        } else {
            children_upto(b2, n, id)
        });
        assert(children_upto(base, n, id) == children_upto(b2, n, id));
        match g.parent_node_id {
            Some(p) => {
                if gn_contains_id(h1, p) {
                    let pi = crate::nodes_mod::gn_index_of(h1, p);
                    assert(0 <= pi < n && h1[pi].id() == p);
                    if i == pi {
                        assert(p == id);
                        assert(reg[i].children == h1[i].children.push(g.id()));
                        assert(h2[i].children == children_upto(base, n, id).push(g.id()));
                    } else {
                        assert(base[pi].id() == p);
                        assert(id != p) by {
                            if id == p {
                                assert(base[i].id() == base[pi].id());
                            }
                        }
                        assert(reg[i] == h1[i]);
                    }
                } else {
                    assert(!gn_contains_id(base, p)) by {
                        if gn_contains_id(base, p) {
                            let w = choose|w: int|
                                0 <= w < base.len() && base[w].id() == p;
                            assert(h1[w].id() == p);
                        }
                    }
                    assert(p != id);
                    assert(reg[i] == h1[i]);
                }
            },
            None => {
                assert(reg[i] == h1[i]);
            },
        }
    }
    // The new node itself comes out as it went in.
    assert(h2[n] == reg[n]) by {
        assert(b2[n] == g);
        match g.parent_node_id {
            Some(p) => {
                if gn_contains_id(h1, p) {
                    let pi = crate::nodes_mod::gn_index_of(h1, p);
                    assert(h1[pi].id() == p);
                    assert(p != g.id());
                    assert(pi != n);
                    assert(reg[n] == h1.push(g)[n]);
                } else {
                    assert(reg[n] == g);
                }
            },
            None => {},
        }
        assert(reg[n] == g);
        assert(h2[n].node == g.node && h2[n].parent_node_id == g.parent_node_id);
        assert(h2[n].children =~= g.children);
    }
}

/// The round trip stated over the rows themselves: building graph
/// nodes from the grown row set agrees row by row with building them
/// from the old rows, and the symlink names read off the grown store
/// agree with those read off the old one, so the whole hydration of
/// the grown rows equals the registration of the created node.
pub proof fn lemma_round_trip_rows(
    rows: Seq<NodeRowV>,
    types: Seq<(int, NodeType)>,
    store_nodes: Seq<NodeRowV>,
    r: NodeRowV,
)
    requires
        node_ids_distinct(store_nodes),
        !has_node_row(store_nodes, r.id),
        node_ids_distinct(rows),
        !has_node_row(rows, r.id),
        forall|i: int| 0 <= i < rows.len() ==> #[trigger] rows[i].linked_to_id != Some(r.id),
        r.linked_to_id != Some(r.id),
        hydrate_ok(rows, types, store_nodes),
        crate::nodes_mod::gn_constructible(
            r,
            resolved_kind(types, r.type_id),
            store_nodes.push(r),
        ),
        forall|i: int|
            0 <= i < rows.len() ==> has_node_row(store_nodes, #[trigger] rows[i].id),
    ensures
        hydrated(pass_one(rows.push(r), types, store_nodes.push(r))) =~= register_node(
            hydrated(pass_one(rows, types, store_nodes)),
            graph_node_of(r, resolved_kind(types, r.type_id), store_nodes.push(r)),
        ),
{
    let s2 = store_nodes.push(r);
    let base1 = pass_one(rows, types, store_nodes);
    let base2 = pass_one(rows.push(r), types, s2);
    let g = graph_node_of(r, resolved_kind(types, r.type_id), s2);
    // Reading a symlink source off the grown store gives the old row.
    assert forall|l: int|
        has_node_row(store_nodes, l) implies node_row(s2, l) == node_row(store_nodes, l) by {
        let w1 = crate::store::node_row_index(store_nodes, l);
        assert(0 <= w1 < store_nodes.len() && store_nodes[w1].id == l);
        assert(s2[w1].id == l);
        assert(has_node_row(s2, l));
        let w2 = crate::store::node_row_index(s2, l);
        assert(0 <= w2 < s2.len() && s2[w2].id == l);
        if w2 == store_nodes.len() {
            assert(s2[w2] == r);
            assert(has_node_row(store_nodes, r.id));
        }
        assert(store_nodes[w2].id == l);
        assert(w2 == w1);
    }
    // Every old row builds the same graph node from either store.
    assert forall|i: int| 0 <= i < rows.len() implies base2[i] == base1[i] by {
        let row = rows[i];
        let kind = resolved_kind(types, row.type_id);
        assert(crate::nodes_mod::row_hydrates(types, row, store_nodes));
        match kind {
            NodeType::SymLink => {
                let l = row.linked_to_id->Some_0;
                assert(has_node_row(store_nodes, l));
                assert(node_row(s2, l) == node_row(store_nodes, l));
            },
            NodeType::Regular => {},
            NodeType::StickyNotes => {},
            NodeType::Inherited => {},
        }
    }
    assert(base2 =~= base1.push(g));
    assert(gn_ids_distinct(base1)) by {
        assert forall|i: int, j: int|
            0 <= i < j < base1.len() implies base1[i].id() != base1[j].id() by {
            assert(base1[i].id() == rows[i].id && base1[j].id() == rows[j].id);
        }
    }
    assert(g.id() == r.id);
    assert(!gn_contains_id(base1, g.id())) by {
        if gn_contains_id(base1, g.id()) {
            let w = choose|w: int| 0 <= w < base1.len() && base1[w].id() == g.id();
            assert(rows[w].id == r.id);
            assert(has_node_row(rows, r.id));
        }
    }
    assert forall|k: int|
        0 <= k < base1.len() implies #[trigger] base1[k].parent_node_id != Some(g.id()) by {
        assert(base1[k].parent_node_id == base1[k].node.placement());
        assert(crate::nodes_mod::row_hydrates(types, rows[k], store_nodes));
        let kind = resolved_kind(types, rows[k].type_id);
        match kind {
            NodeType::Regular => {},
            NodeType::StickyNotes => {
                assert(rows[k].linked_to_id is Some);
                assert(base1[k].node.placement() == rows[k].linked_to_id);
            },
            NodeType::Inherited => {
                assert(rows[k].linked_to_id is Some);
                assert(base1[k].node.placement() == rows[k].linked_to_id);
            },
            NodeType::SymLink => {},
        }
    }
    assert(g.parent_node_id != Some(g.id())) by {
        let kind = resolved_kind(types, r.type_id);
        match kind {
            NodeType::Regular => {},
            NodeType::StickyNotes => {
                assert(r.linked_to_id is Some);
                assert(g.node.placement() == r.linked_to_id);
            },
            NodeType::Inherited => {
                assert(r.linked_to_id is Some);
                assert(g.node.placement() == r.linked_to_id);
            },
            NodeType::SymLink => {},
        }
    }
    assert(g.children == Seq::<int>::empty());
    assert(g.parent_node_id == g.node.placement());
    lemma_create_load_round_trip(base1, g);
    assert(hydrated(base2) =~= hydrated(base1.push(g)));
}

} // verus!
