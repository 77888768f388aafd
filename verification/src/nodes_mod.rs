//! The node tree of one subgroup: hydration from the store, parent and
//! child adjacency, and the per-kind validation rules that guard every
//! mutation.

use vstd::prelude::*;
use crate::models::{opt_id_view, opt_str_ref_view, opt_str_view, str_eq, NodeElement, NodeRowV,
    NodeTypeRowV};
use crate::store::{has_node_row, node_row, regular_dup_exists, Store, StoreV};
use crate::validation_errors::{RejectionV, RelanotesValidationRejection};

verus! {

/// The four node kinds.
#[derive(Clone, Copy, Debug, PartialEq, Eq, Structural)]
pub enum NodeType {
    Regular,
    StickyNotes,
    Inherited,
    SymLink,
}

/// A node, tagged by kind.  The link field's meaning depends on the
/// kind: a free cross-reference for a regular node, the owner for a
/// sticky note, the parent for an inherited node, and the
/// cross-subgroup source for a symlink, which also caches the source's
/// name as read at construction time.
pub enum Node {
    Regular { id: i32, name: String, description: Option<String>, associated_node_id: Option<i32> },
    StickyNotes { id: i32, name: String, description: Option<String>, owner_id: i32 },
    Inherited { id: i32, name: String, description: Option<String>, parent_node_id: i32 },
    SymLink { id: i32, source_node_id: i32, source_node_name: String },
}

/// Mathematical view of a node.
pub ghost enum NodeV {
    Regular {
        id: int,
        name: Seq<char>,
        description: Option<Seq<char>>,
        associated_node_id: Option<int>,
    },
    StickyNotes { id: int, name: Seq<char>, description: Option<Seq<char>>, owner_id: int },
    Inherited { id: int, name: Seq<char>, description: Option<Seq<char>>, parent_node_id: int },
    SymLink { id: int, source_node_id: int, source_node_name: Seq<char> },
}

impl View for Node {
    type V = NodeV;

    open spec fn view(&self) -> NodeV {
        match self {
            Node::Regular { id, name, description, associated_node_id } => NodeV::Regular {
                id: *id as int,
                name: name@,
                description: opt_str_view(description),
                associated_node_id: opt_id_view(*associated_node_id),
            },
            Node::StickyNotes { id, name, description, owner_id } => NodeV::StickyNotes {
                id: *id as int,
                name: name@,
                description: opt_str_view(description),
                owner_id: *owner_id as int,
            },
            Node::Inherited { id, name, description, parent_node_id } => NodeV::Inherited {
                id: *id as int,
                name: name@,
                description: opt_str_view(description),
                parent_node_id: *parent_node_id as int,
            },
            Node::SymLink { id, source_node_id, source_node_name } => NodeV::SymLink {
                id: *id as int,
                source_node_id: *source_node_id as int,
                source_node_name: source_node_name@,
            },
        }
    }
}

impl NodeV {
    /// The node's id.
    pub open spec fn id(self) -> int {
        match self {
            NodeV::Regular { id, .. } => id,
            NodeV::StickyNotes { id, .. } => id,
            NodeV::Inherited { id, .. } => id,
            NodeV::SymLink { id, .. } => id,
        }
    }

    /// The node's kind.
    pub open spec fn kind(self) -> NodeType {
        match self {
            NodeV::Regular { .. } => NodeType::Regular,
            NodeV::StickyNotes { .. } => NodeType::StickyNotes,
            NodeV::Inherited { .. } => NodeType::Inherited,
            NodeV::SymLink { .. } => NodeType::SymLink,
        }
    }

    /// The node's name; a symlink carries none.
    pub open spec fn name(self) -> Seq<char> {
        match self {
            NodeV::Regular { name, .. } => name,
            NodeV::StickyNotes { name, .. } => name,
            NodeV::Inherited { name, .. } => name,
            NodeV::SymLink { .. } => Seq::empty(),
        }
    }

    /// The node's description; a symlink carries none.
    pub open spec fn description(self) -> Option<Seq<char>> {
        match self {
            NodeV::Regular { description, .. } => description,
            NodeV::StickyNotes { description, .. } => description,
            NodeV::Inherited { description, .. } => description,
            NodeV::SymLink { .. } => None,
        }
    }

    /// The raw link field, whatever the kind makes of it.
    pub open spec fn raw_link(self) -> Option<int> {
        match self {
            NodeV::Regular { associated_node_id, .. } => associated_node_id,
            NodeV::StickyNotes { owner_id, .. } => Some(owner_id),
            NodeV::Inherited { parent_node_id, .. } => Some(parent_node_id),
            NodeV::SymLink { source_node_id, .. } => Some(source_node_id),
        }
    }

    /// The placement-relevant link: the owner of a sticky note or the
    /// parent of an inherited node.  A regular node's cross-reference
    /// and a symlink's source carry no placement.
    pub open spec fn placement(self) -> Option<int> {
        match self {
            NodeV::Regular { .. } => None,
            NodeV::StickyNotes { owner_id, .. } => Some(owner_id),
            NodeV::Inherited { parent_node_id, .. } => Some(parent_node_id),
            NodeV::SymLink { .. } => None,
        }
    }

    /// The node with its name and description replaced; a symlink is
    /// left as it stands.
    pub open spec fn renamed(self, name: Seq<char>, description: Option<Seq<char>>) -> NodeV {
        match self {
            NodeV::Regular { id, associated_node_id, .. } => NodeV::Regular {
                id,
                name,
                description,
                associated_node_id,
            },
            NodeV::StickyNotes { id, owner_id, .. } => NodeV::StickyNotes {
                id,
                name,
                description,
                owner_id,
            },
            NodeV::Inherited { id, parent_node_id, .. } => NodeV::Inherited {
                id,
                name,
                description,
                parent_node_id,
            },
            NodeV::SymLink { .. } => self,
        }
    }
}

/// Errors surfaced by node mutations.
#[derive(Debug)]
pub enum RelanotesError {
    NodeMutationError(String),
    DBQueriesError,
}

impl Node {
    /// The node's id.
    pub fn get_node_id(&self) -> (r: i32)
        ensures
            r as int == self@.id(),
    {
        match self {
            Node::Regular { id, .. } => *id,
            Node::StickyNotes { id, .. } => *id,
            Node::Inherited { id, .. } => *id,
            Node::SymLink { id, .. } => *id,
        }
    }

    /// The node's kind.
    pub fn get_kind(&self) -> (r: NodeType)
        ensures
            r == self@.kind(),
    {
        match self {
            Node::Regular { .. } => NodeType::Regular,
            Node::StickyNotes { .. } => NodeType::StickyNotes,
            Node::Inherited { .. } => NodeType::Inherited,
            Node::SymLink { .. } => NodeType::SymLink,
        }
    }

    /// The node's name; a symlink yields the empty string.
    pub fn name_str(&self) -> (r: &str)
        ensures
            r@ == self@.name(),
    {
        match self {
            Node::Regular { name, .. } => name.as_str(),
            Node::StickyNotes { name, .. } => name.as_str(),
            Node::Inherited { name, .. } => name.as_str(),
            Node::SymLink { .. } => {
                let empty = "";
                proof {
                    reveal_strlit("");
                    assert(empty@ =~= Seq::<char>::empty());
                }
                empty
            },
        }
    }

    /// The raw link field, whatever the kind makes of it.
    pub fn get_raw_link(&self) -> (r: Option<i32>)
        ensures
            opt_id_view(r) == self@.raw_link(),
    {
        match self {
            Node::Regular { associated_node_id, .. } => *associated_node_id,
            Node::StickyNotes { owner_id, .. } => Some(*owner_id),
            Node::Inherited { parent_node_id, .. } => Some(*parent_node_id),
            Node::SymLink { source_node_id, .. } => Some(*source_node_id),
        }
    }
}

/// A node together with its derived placement parent and the ids of
/// its children, in discovery order.
pub struct GraphNode {
    pub node: Node,
    pub parent_node_id: Option<i32>,
    pub children: Vec<i32>,
}

/// Mathematical view of a graph node.
pub ghost struct GraphNodeV {
    pub node: NodeV,
    pub parent_node_id: Option<int>,
    pub children: Seq<int>,
}

impl View for GraphNode {
    type V = GraphNodeV;

    open spec fn view(&self) -> GraphNodeV {
        GraphNodeV {
            node: self.node@,
            parent_node_id: opt_id_view(self.parent_node_id),
            children: Seq::new(self.children@.len(), |i: int| self.children@[i] as int),
        }
    }
}

impl GraphNodeV {
    /// The id of the wrapped node.
    pub open spec fn id(self) -> int {
        self.node.id()
    }
}

/// Whether a graph node can be built from this row under this kind:
/// a sticky note or inherited node needs its link, a symlink needs
/// its link and a source row to read the cached name from.
pub open spec fn gn_constructible(row: NodeRowV, kind: NodeType, store_nodes: Seq<NodeRowV>)
    -> bool {
    match kind {
        NodeType::Regular => true,
        NodeType::StickyNotes => row.linked_to_id is Some,
        NodeType::Inherited => row.linked_to_id is Some,
        NodeType::SymLink => match row.linked_to_id {
            Some(l) => has_node_row(store_nodes, l),
            None => false,
        },
    }
}

/// The graph node built from a row under a kind (meaningful when
/// constructible): the node carries the row's fields, the parent is
/// the placement-relevant link, and the children start empty.
pub open spec fn graph_node_of(row: NodeRowV, kind: NodeType, store_nodes: Seq<NodeRowV>)
    -> GraphNodeV {
    let node = match kind {
        NodeType::Regular => NodeV::Regular {
            id: row.id,
            name: row.name,
            description: row.description,
            associated_node_id: row.linked_to_id,
        },
        NodeType::StickyNotes => NodeV::StickyNotes {
            id: row.id,
            name: row.name,
            description: row.description,
            owner_id: match row.linked_to_id {
                Some(l) => l,
                None => 0,
            },
        },
        NodeType::Inherited => NodeV::Inherited {
            id: row.id,
            name: row.name,
            description: row.description,
            parent_node_id: match row.linked_to_id {
                Some(l) => l,
                None => 0,
            },
        },
        NodeType::SymLink => NodeV::SymLink {
            id: row.id,
            source_node_id: match row.linked_to_id {
                Some(l) => l,
                None => 0,
            },
            source_node_name: match row.linked_to_id {
                Some(l) => node_row(store_nodes, l).name,
                None => Seq::empty(),
            },
        },
    };
    GraphNodeV { node: node, parent_node_id: node.placement(), children: Seq::empty() }
}

impl GraphNode {
    /// Wraps a row as a graph node of the given kind, reading a
    /// symlink's source name from the store.  Refuses a row whose
    /// required link is missing or whose symlink source is not there.
    pub fn new(store: &Store, node_element: NodeElement, node_type: NodeType) -> (r: Option<
        GraphNode,
    >)
        requires
            store.wf(),
        ensures
            r is Some <==> gn_constructible(node_element@, node_type, store@.nodes),
            r matches Some(g) ==> g@ == graph_node_of(node_element@, node_type, store@.nodes),
    {
        let linked_to_id = node_element.linked_to_id;
        let node = match node_type {
            NodeType::Regular => Node::Regular {
                id: node_element.id,
                name: node_element.name,
                description: node_element.description,
                associated_node_id: linked_to_id,
            },
            NodeType::StickyNotes => {
                match linked_to_id {
                    Some(l) => Node::StickyNotes {
                        id: node_element.id,
                        name: node_element.name,
                        description: node_element.description,
                        owner_id: l,
                    },
                    None => {
                        return None;
                    },
                }
            },
            NodeType::Inherited => {
                match linked_to_id {
                    Some(l) => Node::Inherited {
                        id: node_element.id,
                        name: node_element.name,
                        description: node_element.description,
                        parent_node_id: l,
                    },
                    None => {
                        return None;
                    },
                }
            },
            NodeType::SymLink => {
                match linked_to_id {
                    Some(l) => {
                        match store.get_node(l) {
                            Some(source) => Node::SymLink {
                                id: node_element.id,
                                source_node_id: l,
                                source_node_name: source.name.clone(),
                            },
                            None => {
                                return None;
                            },
                        }
                    },
                    None => {
                        return None;
                    },
                }
            },
        };
        let parent_node_id = match &node {
            Node::StickyNotes { owner_id, .. } => Some(*owner_id),
            Node::Inherited { parent_node_id, .. } => Some(*parent_node_id),
            Node::Regular { .. } => None,
            Node::SymLink { .. } => None,
        };
        let gn = GraphNode { node, parent_node_id, children: Vec::new() };
        proof {
            assert(gn@.children =~= Seq::<int>::empty());
            assert(gn@ == graph_node_of(node_element@, node_type, store@.nodes));
        }
        Some(gn)
    }

    /// Appends a child id.
    pub fn add_child(&mut self, node_id: i32)
        ensures
            final(self)@.children == old(self)@.children.push(node_id as int),
            final(self)@.node == old(self)@.node,
            final(self)@.parent_node_id == old(self)@.parent_node_id,
    {
        self.children.push(node_id);
        proof {
            assert(final(self)@.children =~= old(self)@.children.push(node_id as int));
        }
    }

    /// Removes the first occurrence of a child id and returns it, or
    /// nothing when the id is not a child.
    pub fn remove_child(&mut self, node_id: i32) -> (r: Option<i32>)
        ensures
            final(self)@.node == old(self)@.node,
            final(self)@.parent_node_id == old(self)@.parent_node_id,
            old(self)@.children.contains(node_id as int) ==> (r == Some(node_id)
                && final(self)@.children =~= old(self)@.children.remove(
                first_index_of_id(old(self)@.children, node_id as int),
            )),
            !old(self)@.children.contains(node_id as int) ==> (r is None && final(self)@.children
                == old(self)@.children),
    {
        let mut i: usize = 0;
        while i < self.children.len()
            invariant
                i <= self@.children.len(),
                forall|k: int| 0 <= k < i ==> self@.children[k] != node_id as int,
                self@ == old(self)@,
            decreases self@.children.len() - i,
        {
            if self.children[i] == node_id {
                proof {
                    assert(old(self)@.children[i as int] == node_id as int);
                    assert(old(self)@.children.contains(node_id as int));
                    lemma_first_index_of_id(old(self)@.children, node_id as int);
                    assert(first_index_of_id(old(self)@.children, node_id as int) == i as int);
                }
                self.children.remove(i);
                proof {
                    assert(final(self)@.children =~= old(self)@.children.remove(i as int));
                }
                return Some(node_id);
            }
            i += 1;
        }
        None
    }
}

/// The kind named by a node-type row's value, if it is one of the
/// four seeded values.
pub open spec fn kind_of_value(v: Seq<char>) -> Option<NodeType> {
    if v == "regular"@ {
        Some(NodeType::Regular)
    } else if v == "sticky_notes"@ {
        Some(NodeType::StickyNotes)
    } else if v == "inherited"@ {
        Some(NodeType::Inherited)
    } else if v == "symlinks"@ {
        Some(NodeType::SymLink)
    } else {
        None
    }
}

/// The id-to-kind registry read off the node-type rows, in row order;
/// rows whose value names no kind are passed over.
pub open spec fn registry_of(rows: Seq<NodeTypeRowV>) -> Seq<(int, NodeType)>
    decreases rows.len(),
{
    if rows.len() == 0 {
        Seq::empty()
    } else {
        let prev = registry_of(rows.drop_last());
        match kind_of_value(rows.last().value) {
            Some(k) => prev.push((rows.last().id, k)),
            None => prev,
        }
    }
}

/// The kind of the first registry entry with the given id.
pub open spec fn registry_lookup_kind(types: Seq<(int, NodeType)>, type_id: int) -> Option<
    NodeType,
>
    decreases types.len(),
{
    if types.len() == 0 {
        None
    } else if types.first().0 == type_id {
        Some(types.first().1)
    } else {
        registry_lookup_kind(types.drop_first(), type_id)
    }
}

/// The id of the first registry entry with the given kind.
pub open spec fn registry_lookup_id(types: Seq<(int, NodeType)>, kind: NodeType) -> Option<int>
    decreases types.len(),
{
    if types.len() == 0 {
        None
    } else if types.first().1 == kind {
        Some(types.first().0)
    } else {
        registry_lookup_id(types.drop_first(), kind)
    }
}

/// Every kind has a registry entry.
pub open spec fn registry_complete(types: Seq<(int, NodeType)>) -> bool {
    forall|k: NodeType| #[trigger] registry_lookup_id(types, k) is Some
}

/// The kind named by a node-type value string.
fn resolve_value(v: &str) -> (r: Option<NodeType>)
    ensures
        r == kind_of_value(v@),
{
    if str_eq(v, "regular") {
        Some(NodeType::Regular)
    } else if str_eq(v, "sticky_notes") {
        Some(NodeType::StickyNotes)
    } else if str_eq(v, "inherited") {
        Some(NodeType::Inherited)
    } else if str_eq(v, "symlinks") {
        Some(NodeType::SymLink)
    } else {
        None
    }
}

/// Mathematical view of a node tree.
pub ghost struct TreeV {
    pub nodes: Seq<GraphNodeV>,
    pub subgroup_id: int,
    pub types: Seq<(int, NodeType)>,
    pub loaded: bool,
}

impl TreeV {
    /// Whether a node with the given id is loaded.
    pub open spec fn contains_id(self, id: int) -> bool {
        exists|i: int| 0 <= i < self.nodes.len() && self.nodes[i].id() == id
    }

    /// The index of the loaded node with the given id (meaningful when
    /// it is loaded and ids are distinct).
    pub open spec fn index_of(self, id: int) -> int {
        choose|i: int| 0 <= i < self.nodes.len() && self.nodes[i].id() == id
    }

    /// The loaded node with the given id.
    pub open spec fn node_at(self, id: int) -> GraphNodeV {
        self.nodes[self.index_of(id)]
    }

    /// No two loaded nodes share an id.
    pub open spec fn ids_distinct(self) -> bool {
        forall|i: int, j: int|
            0 <= i < j < self.nodes.len() ==> self.nodes[i].id() != self.nodes[j].id()
    }

    /// Every node's derived parent is its placement-relevant link.
    pub open spec fn parents_derived(self) -> bool {
        forall|i: int|
            0 <= i < self.nodes.len() ==> #[trigger] self.nodes[i].parent_node_id
                == self.nodes[i].node.placement()
    }

    /// The child entry `k` of the node at index `i` names a loaded
    /// node whose parent is that node.
    pub open spec fn child_entry_ok(self, i: int, k: int) -> bool {
        let c = self.nodes[i].children[k];
        self.contains_id(c) && self.node_at(c).parent_node_id == Some(self.nodes[i].id())
    }

    /// Every child entry points back to its parent.
    pub open spec fn children_point_back(self) -> bool {
        forall|i: int, k: int|
            0 <= i < self.nodes.len() && 0 <= k < self.nodes[i].children.len()
                ==> #[trigger] self.child_entry_ok(i, k)
    }

    /// The node at index `j`, when its parent is loaded, stands in
    /// that parent's children.
    pub open spec fn parent_attached_at(self, j: int) -> bool {
        match self.nodes[j].parent_node_id {
            Some(p) => self.contains_id(p) ==> self.node_at(p).children.contains(
                self.nodes[j].id(),
            ),
            None => true,
        }
    }

    /// Every node with a loaded parent stands in its children.
    pub open spec fn parents_attached(self) -> bool {
        forall|j: int| 0 <= j < self.nodes.len() ==> #[trigger] self.parent_attached_at(j)
    }

    /// The children of the node at index `i` hold no id twice.
    pub open spec fn children_distinct_at(self, i: int) -> bool {
        forall|k1: int, k2: int|
            0 <= k1 < k2 < self.nodes[i].children.len() ==> self.nodes[i].children[k1]
                != self.nodes[i].children[k2]
    }

    /// No children list holds an id twice.
    pub open spec fn children_all_distinct(self) -> bool {
        forall|i: int| 0 <= i < self.nodes.len() ==> #[trigger] self.children_distinct_at(i)
    }

    /// Well-formedness: adjacency is consistent both ways, ids are
    /// unique, parents are derived from placement links, and the
    /// registry resolves every kind.
    pub open spec fn wf(self) -> bool {
        &&& self.ids_distinct()
        &&& self.parents_derived()
        &&& self.children_point_back()
        &&& self.parents_attached()
        &&& self.children_all_distinct()
        &&& registry_complete(self.types)
    }

    /// Whether the node with the given id is loaded and its placement
    /// parent is loaded too.
    pub open spec fn has_loaded_parent(self, id: int) -> bool {
        self.contains_id(id) && match self.node_at(id).parent_node_id {
            Some(p) => self.contains_id(p),
            None => false,
        }
    }

    /// Whether the node with the given id is loaded with no loaded
    /// parent.
    pub open spec fn is_root(self, id: int) -> bool {
        self.contains_id(id) && !self.has_loaded_parent(id)
    }

    /// Whether the node at index `j` has no loaded parent.
    pub open spec fn root_at(self, j: int) -> bool {
        match self.nodes[j].parent_node_id {
            Some(p) => !self.contains_id(p),
            None => true,
        }
    }
}

/// The ids of the roots among the first `i` loaded nodes, in node
/// order.
pub open spec fn root_ids_upto(t: TreeV, i: int) -> Seq<int>
    decreases i,
{
    if i <= 0 {
        Seq::empty()
    } else {
        let prev = root_ids_upto(t, i - 1);
        if t.root_at(i - 1) {
            prev.push(t.nodes[i - 1].id())
        } else {
            prev
        }
    }
}

/// An id stands in `root_ids_upto(t, i)` exactly when one of the
/// first `i` nodes carries it and has no loaded parent; no id stands
/// there twice.
pub proof fn lemma_root_ids_upto(t: TreeV, i: int)
    requires
        t.ids_distinct(),
        i <= t.nodes.len(),
    ensures
        forall|x: int|
            #[trigger] root_ids_upto(t, i).contains(x) <==> exists|j: int|
                0 <= j < i && t.nodes[j].id() == x && t.root_at(j),
        forall|k1: int, k2: int|
            0 <= k1 < k2 < root_ids_upto(t, i).len() ==> root_ids_upto(t, i)[k1]
                != root_ids_upto(t, i)[k2],
    decreases i,
{
    if i > 0 {
        lemma_root_ids_upto(t, i - 1);
        let prev = root_ids_upto(t, i - 1);
        let cur = root_ids_upto(t, i);
        if t.root_at(i - 1) {
            assert(cur == prev.push(t.nodes[i - 1].id()));
            assert forall|x: int| #[trigger] cur.contains(x) implies exists|j: int|
                0 <= j < i && t.nodes[j].id() == x && t.root_at(j) by {
                let k = choose|k: int| 0 <= k < cur.len() && cur[k] == x;
                if k < prev.len() {
                    assert(prev[k] == x);
                    assert(prev.contains(x));
                } else {
                    assert(t.nodes[i - 1].id() == x);
                }
            }
            assert forall|x: int|
                (exists|j: int|
                    0 <= j < i && t.nodes[j].id() == x && t.root_at(j)) implies #[trigger] cur
                .contains(x) by {
                let j = choose|j: int| 0 <= j < i && t.nodes[j].id() == x && t.root_at(j);
                if j < i - 1 {
                    assert(prev.contains(x));
                    let k = choose|k: int| 0 <= k < prev.len() && prev[k] == x;
                    assert(cur[k] == x);
                } else {
                    assert(cur[cur.len() - 1] == x);
                }
            }
            assert forall|k1: int, k2: int|
                0 <= k1 < k2 < cur.len() implies cur[k1] != cur[k2] by {
                if k2 == cur.len() - 1 {
                    assert(prev[k1] == cur[k1]);
                    assert(prev.contains(cur[k1]));
                    let j = choose|j: int|
                        0 <= j < i - 1 && t.nodes[j].id() == cur[k1] && t.root_at(j);
                    assert(t.nodes[j].id() != t.nodes[i - 1].id());
                }
            }
        } else {
            assert(cur == prev);
            assert forall|x: int| #[trigger] cur.contains(x) implies exists|j: int|
                0 <= j < i && t.nodes[j].id() == x && t.root_at(j) by {
                assert(prev.contains(x));
            }
            assert forall|x: int|
                (exists|j: int|
                    0 <= j < i && t.nodes[j].id() == x && t.root_at(j)) implies #[trigger] cur
                .contains(x) by {
                let j = choose|j: int| 0 <= j < i && t.nodes[j].id() == x && t.root_at(j);
                assert(j < i - 1);
                assert(prev.contains(x));
            }
        }
    }
}

/// The node tree of one subgroup: all loaded nodes with their
/// adjacency, the subgroup scope, and the node-type registry.
pub struct NodesTree {
    nodes_map: Vec<GraphNode>,
    subgroup_id: i32,
    node_types_mapping: Vec<(i32, NodeType)>,
    pub loaded: bool,
}

impl View for NodesTree {
    type V = TreeV;

    closed spec fn view(&self) -> TreeV {
        TreeV {
            nodes: Seq::new(self.nodes_map@.len(), |i: int| self.nodes_map@[i]@),
            subgroup_id: self.subgroup_id as int,
            types: Seq::new(
                self.node_types_mapping@.len(),
                |i: int| (self.node_types_mapping@[i].0 as int, self.node_types_mapping@[i].1),
            ),
            loaded: self.loaded,
        }
    }
}

impl NodesTree {
    /// Well-formedness of the concrete tree.
    pub open spec fn wf(&self) -> bool {
        self@.wf()
    }

    /// Builds an empty, unloaded tree scoped to one subgroup, reading
    /// the node-type registry off the store's seed rows.  Refuses a
    /// store whose seed rows leave some kind without an id: the seed
    /// data is part of the schema, and a gap in it is a construction
    /// defect, not user data.
    pub fn new(store: &Store, subgroup_id: i32) -> (r: Option<NodesTree>)
        ensures
            r is Some <==> registry_complete(registry_of(store@.node_types)),
            r matches Some(t) ==> ({
                &&& t.wf()
                &&& t@.nodes =~= Seq::<GraphNodeV>::empty()
                &&& t@.subgroup_id == subgroup_id as int
                &&& t@.types == registry_of(store@.node_types)
                &&& !t@.loaded
            }),
    {
        let rows = store.node_types_rows();
        let mut mapping: Vec<(i32, NodeType)> = Vec::new();
        let mut i: usize = 0;
        while i < rows.len()
            invariant
                i <= rows@.len(),
                crate::store::node_type_rows_view(rows@) == store@.node_types,
                mapping_view(mapping@) == registry_of(store@.node_types.take(i as int)),
            decreases rows@.len() - i,
        {
            proof {
                assert(store@.node_types.take(i + 1).drop_last() =~= store@.node_types.take(
                    i as int,
                ));
                assert(store@.node_types.take(i + 1).last() == store@.node_types[i as int]);
            }
            match resolve_value(rows[i].value.as_str()) {
                Some(k) => {
                    mapping.push((rows[i].id, k));
                    proof {
                        assert(mapping_view(mapping@) =~= mapping_view(mapping@.drop_last()).push(
                            (rows@[i as int].id as int, k),
                        ));
                    }
                },
                None => {},
            }
            i += 1;
        }
        proof {
            assert(store@.node_types.take(store@.node_types.len() as int) =~= store@.node_types);
        }
        let ghost types = registry_of(store@.node_types);
        let complete = registry_kind_known(&mapping, NodeType::Regular)
            && registry_kind_known(&mapping, NodeType::StickyNotes)
            && registry_kind_known(&mapping, NodeType::Inherited)
            && registry_kind_known(&mapping, NodeType::SymLink);
        if !complete {
            proof {
                assert(!registry_complete(types));
            }
            return None;
        }
        proof {
            assert forall|k: NodeType| #[trigger] registry_lookup_id(types, k) is Some by {
                match k {
                    NodeType::Regular => assert(registry_lookup_id(types, NodeType::Regular)
                        is Some),
                    NodeType::StickyNotes => assert(registry_lookup_id(
                        types,
                        NodeType::StickyNotes,
                    ) is Some),
                    NodeType::Inherited => assert(registry_lookup_id(types, NodeType::Inherited)
                        is Some),
                    NodeType::SymLink => assert(registry_lookup_id(types, NodeType::SymLink)
                        is Some),
                }
            }
        }
        let t = NodesTree {
            nodes_map: Vec::new(),
            subgroup_id,
            node_types_mapping: mapping,
            loaded: false,
        };
        proof {
            assert(t@.nodes =~= Seq::<GraphNodeV>::empty());
            assert(t@.types =~= types);
        }
        Some(t)
    }

    /// Whether the store's node-type seed rows give every kind an id.
    pub fn registry_is_complete(store: &Store) -> (b: bool)
        ensures
            b == registry_complete(registry_of(store@.node_types)),
    {
        NodesTree::new(store, 0).is_some()
    }

    /// The index of the loaded node with the given id, if one is
    /// loaded.
    fn find_index(&self, id: i32) -> (r: Option<usize>)
        requires
            self@.ids_distinct(),
        ensures
            r is Some <==> self@.contains_id(id as int),
            r matches Some(i) ==> (
                i < self@.nodes.len() && i as int == self@.index_of(id as int)
                    && self@.nodes[i as int].id() == id as int
            ),
    {
        let mut i: usize = 0;
        while i < self.nodes_map.len()
            invariant
                self@.ids_distinct(),
                i <= self@.nodes.len(),
                self@.nodes.len() == self.nodes_map@.len(),
                forall|k: int| 0 <= k < i ==> self@.nodes[k].id() != id as int,
            decreases self@.nodes.len() - i,
        {
            if self.nodes_map[i].node.get_node_id() == id {
                proof {
                    assert(self@.nodes[i as int].id() == id as int);
                    assert(self@.contains_id(id as int));
                    let ci = self@.index_of(id as int);
                    assert(0 <= ci < self@.nodes.len() && self@.nodes[ci].id() == id as int);
                    assert(ci == i as int);
                }
                return Some(i);
            }
            i += 1;
        }
        None
    }

    /// The kind registered under a type id, if one is.
    fn get_node_type(&self, type_id: &i32) -> (r: Option<NodeType>)
        ensures
            r == registry_lookup_kind(self@.types, *type_id as int),
    {
        let ghost types = self@.types;
        proof {
            assert(types.skip(0) =~= types);
        }
        let mut i: usize = 0;
        while i < self.node_types_mapping.len()
            invariant
                types == self@.types,
                i <= types.len(),
                registry_lookup_kind(types, *type_id as int) == registry_lookup_kind(
                    types.skip(i as int),
                    *type_id as int,
                ),
            decreases types.len() - i,
        {
            proof {
                assert(types.skip(i as int).first() == types[i as int]);
                assert(types.skip(i as int).drop_first() =~= types.skip(i + 1));
            }
            if self.node_types_mapping[i].0 == *type_id {
                return Some(self.node_types_mapping[i].1);
            }
            i += 1;
        }
        proof {
            assert(types.skip(types.len() as int) =~= Seq::<(int, NodeType)>::empty());
        }
        None
    }

    /// The type id registered for a kind.  The registry resolves every
    /// kind on a well-formed tree, so the lookup cannot miss.
    pub fn get_node_type_id_from_type(&self, node_type: NodeType) -> (r: i32)
        requires
            self.wf(),
        ensures
            Some(r as int) == registry_lookup_id(self@.types, node_type),
    {
        let ghost types = self@.types;
        proof {
            assert(types.skip(0) =~= types);
        }
        let mut i: usize = 0;
        while i < self.node_types_mapping.len()
            invariant
                types == self@.types,
                i <= types.len(),
                registry_lookup_id(types, node_type) == registry_lookup_id(
                    types.skip(i as int),
                    node_type,
                ),
            decreases types.len() - i,
        {
            proof {
                assert(types.skip(i as int).first() == types[i as int]);
                assert(types.skip(i as int).drop_first() =~= types.skip(i + 1));
            }
            if self.node_types_mapping[i].1 == node_type {
                return self.node_types_mapping[i].0;
            }
            i += 1;
        }
        proof {
            assert(types.skip(types.len() as int) =~= Seq::<(int, NodeType)>::empty());
            assert(registry_lookup_id(types, node_type) is Some);
            assert(false);
        }
        0
    }

    /// Hydrates the tree from the store: fetches the subgroup's node
    /// rows in one read, wraps every row keyed by id, then attaches
    /// every node to its placement parent, so that lookups succeed
    /// regardless of row order.  Replaces any previous content and
    /// sets the loaded flag.  Refuses, leaving the tree untouched,
    /// when a row's type id is not registered, when a sticky note or
    /// inherited row lacks its link, or when a symlink's source row is
    /// not in the store.
    pub fn load(&mut self, store: &Store) -> (r: Result<(), RelanotesError>)
        requires
            old(self).wf(),
            store.wf(),
        ensures
            final(self).wf(),
            ({
                let rows = store@.nodes.filter(crate::store::sg_pred(old(self)@.subgroup_id));
                &&& (r is Ok <==> hydrate_ok(rows, old(self)@.types, store@.nodes))
                &&& r is Ok ==> ({
                    &&& final(self)@.nodes =~= hydrated(
                        pass_one(rows, old(self)@.types, store@.nodes),
                    )
                    &&& final(self)@.loaded
                    &&& final(self)@.subgroup_id == old(self)@.subgroup_id
                    &&& final(self)@.types == old(self)@.types
                })
                &&& r is Err ==> final(self)@ == old(self)@
            }),
            r matches Err(e) ==> e is DBQueriesError,
    {
        let ghost types = self@.types;
        let ghost sgp = crate::store::sg_pred(self@.subgroup_id);
        let rows = store.nodes_of_subgroup(self.subgroup_id);
        let ghost rowsv = crate::store::node_rows_view(rows@);
        proof {
            assert(rowsv =~= store@.nodes.filter(sgp));
            crate::store::lemma_filter_node_rows_distinct(store@.nodes, sgp);
        }
        let mut map: Vec<GraphNode> = Vec::new();
        let mut i: usize = 0;
        while i < rows.len()
            invariant
                self.wf(),
                store.wf(),
                self@ == old(self)@,
                types == self@.types,
                rowsv == crate::store::node_rows_view(rows@),
                rowsv == store@.nodes.filter(crate::store::sg_pred(old(self)@.subgroup_id)),
                i <= rowsv.len(),
                map@.len() == i,
                forall|k: int| 0 <= k < i ==> #[trigger] row_hydrates(types, rowsv[k], store@.nodes),
                forall|k: int|
                    0 <= k < i ==> #[trigger] map@[k]@ == pass_one(rowsv, types, store@.nodes)[k],
            decreases rowsv.len() - i,
        {
            let kind = match self.get_node_type(&rows[i].type_id) {
                Some(k) => k,
                None => {
                    proof {
                        assert(!row_hydrates(types, rowsv[i as int], store@.nodes));
                    }
                    return Err(RelanotesError::DBQueriesError);
                },
            };
            match GraphNode::new(store, rows[i].duplicate(), kind) {
                Some(g) => {
                    proof {
                        assert(resolved_kind(types, rowsv[i as int].type_id) == kind);
                        assert(g@ == pass_one(rowsv, types, store@.nodes)[i as int]);
                    }
                    map.push(g);
                },
                None => {
                    proof {
                        assert(!row_hydrates(types, rowsv[i as int], store@.nodes));
                    }
                    return Err(RelanotesError::DBQueriesError);
                },
            }
            i += 1;
        }
        let ghost base = pass_one(rowsv, types, store@.nodes);
        proof {
            assert(map@.len() == base.len());
            assert forall|k: int| 0 <= k < base.len() implies #[trigger] base[k].id()
                == rowsv[k].id by {}
            assert(gn_ids_distinct(base));
        }
        let mut j: usize = 0;
        while j < map.len()
            invariant
                j <= map@.len(),
                map@.len() == base.len(),
                gn_ids_distinct(base),
                forall|i2: int|
                    0 <= i2 < base.len() ==> (#[trigger] map@[i2]@.node == base[i2].node
                        && map@[i2]@.parent_node_id == base[i2].parent_node_id),
                forall|i2: int|
                    0 <= i2 < base.len() ==> #[trigger] map@[i2]@.children == children_upto(
                        base,
                        j as int,
                        base[i2].id(),
                    ),
            decreases map@.len() - j,
        {
            let parent_opt = map[j].parent_node_id;
            match parent_opt {
                Some(p) => {
                    match find_gn_index(&map, p) {
                        Some(pi) => {
                            let child_id = map[j].node.get_node_id();
                            proof {
                                assert(map@[j as int]@.node == base[j as int].node);
                                assert(map@[j as int]@.parent_node_id == base[
                                    j as int
                                ].parent_node_id);
                                assert(map@[pi as int]@.node == base[pi as int].node);
                                assert(base[pi as int].id() == p as int);
                                assert(child_id as int == base[j as int].id());
                                assert(base[j as int].parent_node_id == Some(p as int));
                            }
                            let slot = &mut map[pi];
                            slot.add_child(child_id);
                            proof {
                                assert forall|i2: int|
                                    0 <= i2 < base.len() implies #[trigger] map@[i2]@.children
                                    == children_upto(base, j + 1, base[i2].id()) by {
                                    if i2 == pi as int {
                                    } else {
                                        assert(base[i2].id() != base[pi as int].id());
                                    }
                                }
                            }
                        },
                        None => {
                            proof {
                                assert forall|i2: int|
                                    0 <= i2 < base.len() implies #[trigger] map@[i2]@.children
                                    == children_upto(base, j + 1, base[i2].id()) by {
                                    assert(base[i2].id() != p as int);
                                    assert(map@[i2]@.id() == base[i2].id());
                                }
                            }
                        },
                    }
                },
                None => {
                    proof {
                        assert(base[j as int].parent_node_id is None);
                        assert forall|i2: int|
                            0 <= i2 < base.len() implies #[trigger] map@[i2]@.children
                            == children_upto(base, j + 1, base[i2].id()) by {}
                    }
                },
            }
            j += 1;
        }
        self.nodes_map = map;
        self.loaded = true;
        proof {
            assert forall|i2: int|
                0 <= i2 < base.len() implies final(self)@.nodes[i2] == hydrated(base)[i2] by {
                assert(map@[i2]@.node == base[i2].node);
                assert(map@[i2]@.parent_node_id == base[i2].parent_node_id);
                assert(map@[i2]@.children == children_upto(
                    base,
                    base.len() as int,
                    base[i2].id(),
                ));
                assert(final(self)@.nodes[i2] == map@[i2]@);
            }
            assert(final(self)@.nodes =~= hydrated(base));
            assert forall|i2: int|
                0 <= i2 < base.len() implies #[trigger] base[i2].parent_node_id
                == base[i2].node.placement() by {}
            lemma_hydrated_wf(final(self)@, base);
        }
        Ok(())
    }

    /// Rewrites the name and description of the loaded node with the
    /// given id, after re-validating the new name under the same
    /// rules as creation with the node itself left out of the
    /// duplicate checks; then persists the change and atomically
    /// replaces the in-memory node, its id and kind unchanged.  A
    /// symlink's name and description are immutable by design, so the
    /// mutation always fails for one.
    pub fn update_name_and_description(
        &mut self,
        store: &mut Store,
        id: i32,
        name: String,
        description: Option<String>,
        group_id: i32,
    ) -> (r: Result<(), RelanotesError>)
        requires
            old(self).wf(),
            old(store).wf(),
        ensures
            final(self).wf(),
            final(store).wf(),
            r is Ok <==> update_ok(
                old(self)@,
                old(store)@,
                id as int,
                name@,
                opt_str_view(&description),
                group_id as int,
            ),
            r is Ok ==> ({
                &&& final(self)@.nodes =~= old(self)@.nodes.update(
                    old(self)@.index_of(id as int),
                    renamed_graph_node(
                        old(self)@.node_at(id as int),
                        name@,
                        opt_str_view(&description),
                    ),
                )
                &&& final(self)@.subgroup_id == old(self)@.subgroup_id
                &&& final(self)@.types == old(self)@.types
                &&& final(self)@.loaded == old(self)@.loaded
                &&& final(store)@.nodes =~= (if crate::store::has_node_row(
                    old(store)@.nodes,
                    id as int,
                ) {
                    old(store)@.nodes.update(
                        crate::store::node_row_index(old(store)@.nodes, id as int),
                        crate::store::renamed_node_row(
                            crate::store::node_row(old(store)@.nodes, id as int),
                            name@,
                            opt_str_view(&description),
                        ),
                    )
                } else {
                    old(store)@.nodes
                })
                &&& final(store)@.groups == old(store)@.groups
                &&& final(store)@.subgroups == old(store)@.subgroups
                &&& final(store)@.node_types == old(store)@.node_types
                &&& final(store)@.next_group_id == old(store)@.next_group_id
                &&& final(store)@.next_node_type_id == old(store)@.next_node_type_id
                &&& final(store)@.next_node_id == old(store)@.next_node_id
            }),
            r matches Err(e) ==> (final(self)@ == old(self)@ && final(store)@ == old(store)@
                && match e {
                RelanotesError::NodeMutationError(m) => {
                    if !old(self)@.contains_id(id as int) {
                        m@ == "the node is not loaded"@
                    } else if old(self)@.node_at(id as int).node.kind() == NodeType::SymLink {
                        m@ == "Can't change name/description of the symlink"@
                    } else {
                        match validate_spec(
                            old(self)@,
                            old(store)@,
                            Some(id as int),
                            name@,
                            opt_str_view(&description),
                            old(self)@.node_at(id as int).node.raw_link(),
                            old(self)@.subgroup_id,
                            group_id as int,
                            old(self)@.node_at(id as int).node.kind(),
                        ) {
                            Some(rej) => m@ == crate::validation_errors::rejection_text(rej),
                            None => false,
                        }
                    }
                },
                RelanotesError::DBQueriesError => false,
            }),
    {
        let idx = match self.find_index(id) {
            Some(i) => i,
            None => {
                return Err(RelanotesError::NodeMutationError("the node is not loaded".to_owned()));
            },
        };
        let kind = self.nodes_map[idx].node.get_kind();
        if kind == NodeType::SymLink {
            return Err(
                RelanotesError::NodeMutationError(
                    "Can't change name/description of the symlink".to_owned(),
                ),
            );
        }
        let raw_link = self.nodes_map[idx].node.get_raw_link();
        let desc_ref: Option<&str> = match &description {
            Some(d) => Some(d.as_str()),
            None => None,
        };
        proof {
            assert(opt_str_ref_view(desc_ref) == opt_str_view(&description));
            assert(self@.node_at(id as int) == self@.nodes[idx as int]);
        }
        match self.validate_node_mutation_or_creation(
            store,
            Some(id),
            name.as_str(),
            desc_ref,
            raw_link,
            self.subgroup_id,
            group_id,
            kind,
        ) {
            Ok(_) => {},
            Err(rej) => {
                return Err(RelanotesError::NodeMutationError(rej.message()));
            },
        }
        store.update_node(id, name.as_str(), desc_ref);
        let ghost t_old = self@;
        let new_node = match &self.nodes_map[idx].node {
            Node::Regular { id: nid, associated_node_id, .. } => Node::Regular {
                id: *nid,
                name,
                description,
                associated_node_id: *associated_node_id,
            },
            Node::StickyNotes { id: nid, owner_id, .. } => Node::StickyNotes {
                id: *nid,
                name,
                description,
                owner_id: *owner_id,
            },
            Node::Inherited { id: nid, parent_node_id, .. } => Node::Inherited {
                id: *nid,
                name,
                description,
                parent_node_id: *parent_node_id,
            },
            Node::SymLink { .. } => {
                proof {
                    assert(false);
                }
                return Err(
                    RelanotesError::NodeMutationError("the node cannot be rewritten".to_owned()),
                );
            },
        };
        let slot = &mut self.nodes_map[idx];
        slot.node = new_node;
        proof {
            assert(final(self)@.nodes =~= t_old.nodes.update(
                t_old.index_of(id as int),
                renamed_graph_node(
                    t_old.node_at(id as int),
                    final(self)@.nodes[idx as int].node.name(),
                    final(self)@.nodes[idx as int].node.description(),
                ),
            ));
            lemma_rename_wf(t_old, final(self)@, id as int);
        }
        Ok(())
    }

    /// Whether some loaded node names the given id as its placement
    /// parent.
    fn some_parent_is(&self, p: i32) -> (b: bool)
        ensures
            b == exists|k: int|
                0 <= k < self@.nodes.len() && #[trigger] self@.nodes[k].parent_node_id == Some(
                    p as int,
                ),
    {
        let mut i: usize = 0;
        while i < self.nodes_map.len()
            invariant
                i <= self@.nodes.len(),
                self@.nodes.len() == self.nodes_map@.len(),
                forall|k: int| 0 <= k < i ==> self@.nodes[k].parent_node_id != Some(p as int),
            decreases self@.nodes.len() - i,
        {
            match self.nodes_map[i].parent_node_id {
                Some(q) => {
                    if q == p {
                        proof {
                            assert(self@.nodes[i as int].parent_node_id == Some(p as int));
                        }
                        return true;
                    }
                },
                None => {},
            }
            i += 1;
        }
        false
    }

    /// Creates a node: validates the creation, inserts the row in the
    /// store, reads it back, wraps it, registers it in the tree, and,
    /// when its placement parent is loaded, appends it to that
    /// parent's children.  On any violation the store is left
    /// untouched.  Returns the id the store assigned.
    pub fn create_node(
        &mut self,
        store: &mut Store,
        name: &str,
        description: Option<&str>,
        parent_node_id: Option<i32>,
        subgroup_id: i32,
        group_id: i32,
        type_id: i32,
    ) -> (r: Result<i32, RelanotesValidationRejection>)
        requires
            old(self).wf(),
            old(store).wf(),
            old(store)@.next_node_id < i32::MAX,
        ensures
            final(self).wf(),
            final(store).wf(),
            r is Ok <==> create_ok(
                old(self)@,
                old(store)@,
                opt_id_view(parent_node_id),
                subgroup_id as int,
                group_id as int,
                type_id as int,
                name@,
                opt_str_ref_view(description),
            ),
            r matches Ok(id) ==> ({
                let row = created_row(
                    old(store)@,
                    opt_id_view(parent_node_id),
                    type_id as int,
                    name@,
                    opt_str_ref_view(description),
                    subgroup_id as int,
                );
                &&& id as int == old(store)@.next_node_id
                &&& final(store)@.nodes =~= old(store)@.nodes.push(row)
                &&& final(store)@.next_node_id == old(store)@.next_node_id + 1
                &&& final(store)@.groups == old(store)@.groups
                &&& final(store)@.subgroups == old(store)@.subgroups
                &&& final(store)@.node_types == old(store)@.node_types
                &&& final(store)@.next_group_id == old(store)@.next_group_id
                &&& final(store)@.next_node_type_id == old(store)@.next_node_type_id
                &&& final(self)@.nodes =~= register_node(
                    old(self)@.nodes,
                    graph_node_of(
                        row,
                        resolved_kind(old(self)@.types, type_id as int),
                        final(store)@.nodes,
                    ),
                )
                &&& final(self)@.subgroup_id == old(self)@.subgroup_id
                &&& final(self)@.types == old(self)@.types
                &&& final(self)@.loaded == old(self)@.loaded
            }),
            r matches Err(e) ==> ({
                &&& final(self)@ == old(self)@
                &&& final(store)@ == old(store)@
                &&& match registry_lookup_kind(old(self)@.types, type_id as int) {
                    Some(kind) => match validate_spec(
                        old(self)@,
                        old(store)@,
                        None,
                        name@,
                        opt_str_ref_view(description),
                        opt_id_view(parent_node_id),
                        subgroup_id as int,
                        group_id as int,
                        kind,
                    ) {
                        Some(rej) => e@ == rej,
                        None => e@ is TechnicalError,
                    },
                    None => e@ is TechnicalError,
                }
            }),
    {
        let kind = match self.get_node_type(&type_id) {
            Some(k) => k,
            None => {
                return Err(
                    RelanotesValidationRejection::TechnicalError(
                        "the node type id is not registered".to_owned(),
                    ),
                );
            },
        };
        match self.validate_node_mutation_or_creation(
            store,
            None,
            name,
            description,
            parent_node_id,
            subgroup_id,
            group_id,
            kind,
        ) {
            Ok(_) => {},
            Err(rej) => {
                return Err(rej);
            },
        }
        let prospective = store.next_node_id();
        if self.find_index(prospective).is_some() {
            return Err(
                RelanotesValidationRejection::TechnicalError(
                    "the id the store would assign is already loaded".to_owned(),
                ),
            );
        }
        if self.some_parent_is(prospective) {
            return Err(
                RelanotesValidationRejection::TechnicalError(
                    "a loaded node already names the next id as its parent".to_owned(),
                ),
            );
        }
        let id = match store.insert_node(parent_node_id, type_id, name, description, subgroup_id) {
            Some(i) => i,
            None => {
                return Err(
                    RelanotesValidationRejection::TechnicalError(
                        "the store refused the row".to_owned(),
                    ),
                );
            },
        };
        let ghost rowv = created_row(
            old(store)@,
            opt_id_view(parent_node_id),
            type_id as int,
            name@,
            opt_str_ref_view(description),
            subgroup_id as int,
        );
        proof {
            assert(store@.nodes[store@.nodes.len() - 1] == rowv);
            assert(has_node_row(store@.nodes, id as int));
        }
        let row = match store.get_node(id) {
            Some(n) => n.duplicate(),
            None => {
                proof {
                    assert(false);
                }
                return Err(
                    RelanotesValidationRejection::TechnicalError(
                        "the inserted row could not be read back".to_owned(),
                    ),
                );
            },
        };
        proof {
            let w = crate::store::node_row_index(store@.nodes, id as int);
            assert(0 <= w < store@.nodes.len() && store@.nodes[w].id == id as int);
            assert(w == store@.nodes.len() - 1);
            assert(row@ == rowv);
            match opt_id_view(parent_node_id) {
                Some(l) => {
                    if kind == NodeType::SymLink {
                        assert(has_node_row(old(store)@.nodes, l));
                        let wl = crate::store::node_row_index(old(store)@.nodes, l);
                        assert(store@.nodes[wl].id == l);
                        assert(has_node_row(store@.nodes, l));
                    }
                },
                None => {},
            }
        }
        let gn = match GraphNode::new(store, row, kind) {
            Some(g) => g,
            None => {
                proof {
                    assert(gn_constructible(rowv, kind, store@.nodes));
                    assert(false);
                }
                return Err(
                    RelanotesValidationRejection::TechnicalError(
                        "the created row could not be wrapped".to_owned(),
                    ),
                );
            },
        };
        let new_id = gn.node.get_node_id();
        let gparent = gn.parent_node_id;
        let ghost t_old = self@;
        let ghost gnv = gn@;
        proof {
            assert(gnv == graph_node_of(rowv, kind, store@.nodes));
            assert(gnv.id() == id as int);
            assert(!t_old.contains_id(id as int));
            match gnv.parent_node_id {
                Some(p) => {
                    assert(t_old.contains_id(p));
                    assert(p != id as int);
                },
                None => {},
            }
        }
        self.nodes_map.push(gn);
        proof {
            assert(self@.nodes =~= t_old.nodes.push(gnv));
        }
        match gparent {
            Some(p) => {
                match find_gn_index(&self.nodes_map, p) {
                    Some(pi) => {
                        proof {
                            assert(self@.nodes[pi as int].id()
                                == self.nodes_map@[pi as int]@.id());
                            assert(gn_contains_id(t_old.nodes, p as int));
                            let ci = gn_index_of(t_old.nodes, p as int);
                            assert(0 <= ci < t_old.nodes.len() && t_old.nodes[ci].id()
                                == p as int);
                            assert(pi as int == ci);
                        }
                        let slot = &mut self.nodes_map[pi];
                        slot.add_child(new_id);
                        proof {
                            assert(final(self)@.nodes =~= register_node(t_old.nodes, gnv));
                        }
                    },
                    None => {
                        proof {
                            assert(t_old.contains_id(p as int));
                            let ci = t_old.index_of(p as int);
                            assert(self.nodes_map@[ci]@.id() == p as int);
                            assert(false);
                        }
                    },
                }
            },
            None => {
                proof {
                    assert(final(self)@.nodes =~= register_node(t_old.nodes, gnv));
                }
            },
        }
        proof {
            assert forall|k: int|
                0 <= k < t_old.nodes.len() implies #[trigger] t_old.nodes[k].parent_node_id
                != Some(id as int) by {}
            lemma_register_wf(t_old, final(self)@, gnv);
        }
        Ok(id)
    }

    /// Whether some loaded child of the owner at `owner_index` is a
    /// node of the given kind with the given name, leaving out the
    /// node named by `exclude`.
    fn sibling_name_dup(
        &self,
        owner_index: usize,
        name: &str,
        exclude: Option<i32>,
        kind: NodeType,
    ) -> (b: bool)
        requires
            self.wf(),
            owner_index < self@.nodes.len(),
        ensures
            b == sibling_dup_exists(
                self@,
                self@.nodes[owner_index as int].id(),
                name@,
                opt_id_view(exclude),
                kind,
            ),
    {
        let ghost owner = self@.nodes[owner_index as int].id();
        proof {
            assert(self@.contains_id(owner));
            assert(self@.index_of(owner) == owner_index as int);
        }
        let children = &self.nodes_map[owner_index].children;
        let mut j: usize = 0;
        while j < children.len()
            invariant
                self.wf(),
                owner_index < self@.nodes.len(),
                owner == self@.nodes[owner_index as int].id(),
                self@.node_at(owner) == self@.nodes[owner_index as int],
                children@ == self.nodes_map@[owner_index as int].children@,
                j <= children@.len(),
                children@.len() == self@.node_at(owner).children.len(),
                forall|k: int|
                    0 <= k < j ==> !sibling_dup_at(
                        self@,
                        owner,
                        name@,
                        opt_id_view(exclude),
                        kind,
                        k,
                    ),
            decreases children@.len() - j,
        {
            let c = children[j];
            proof {
                assert(self@.node_at(owner).children[j as int] == c as int);
                assert(self@.child_entry_ok(owner_index as int, j as int));
            }
            let excluded = match exclude {
                Some(e) => c == e,
                None => false,
            };
            if !excluded {
                match self.find_index(c) {
                    Some(ci) => {
                        let child = &self.nodes_map[ci].node;
                        if child.get_kind() == kind && str_eq(child.name_str(), name) {
                            proof {
                                assert(sibling_dup_at(
                                    self@,
                                    owner,
                                    name@,
                                    opt_id_view(exclude),
                                    kind,
                                    j as int,
                                ));
                            }
                            return true;
                        }
                    },
                    None => {
                        proof {
                            assert(false);
                        }
                    },
                }
            }
            j += 1;
        }
        false
    }

    /// Runs the validation rulebook for a creation (`id` empty) or a
    /// mutation of the node named by `id`, fail-fast on the first
    /// violation: the subgroup-scope check, then the kind's name
    /// rules, then the kind's link rules.
    pub fn validate_node_mutation_or_creation(
        &self,
        store: &Store,
        id: Option<i32>,
        name: &str,
        description: Option<&str>,
        linked_to_id: Option<i32>,
        subgroup_id: i32,
        group_id: i32,
        node_type: NodeType,
    ) -> (r: Result<(), RelanotesValidationRejection>)
        requires
            self.wf(),
            store.wf(),
        ensures
            rejection_of(r) == validate_spec(
                self@,
                store@,
                opt_id_view(id),
                name@,
                opt_str_ref_view(description),
                opt_id_view(linked_to_id),
                subgroup_id as int,
                group_id as int,
                node_type,
            ),
    {
        if subgroup_id != self.subgroup_id {
            return Err(
                RelanotesValidationRejection::TryingToMutateOtherSubgroup {
                    current: self.subgroup_id,
                    checking: subgroup_id,
                },
            );
        }
        match node_type {
            NodeType::Regular => {
                if name.unicode_len() == 0 {
                    return Err(RelanotesValidationRejection::EmptyName);
                }
                let regular_type_id = self.get_node_type_id_from_type(NodeType::Regular);
                if store.regular_name_exists(group_id, name, id, regular_type_id) {
                    return Err(
                        RelanotesValidationRejection::DuplicateRegularNode(name.to_owned()),
                    );
                }
                Ok(())
            },
            NodeType::StickyNotes => {
                if name.unicode_len() == 0 {
                    return Err(RelanotesValidationRejection::EmptyName);
                }
                match linked_to_id {
                    None => Err(RelanotesValidationRejection::StickyNoteWithoutOwner),
                    Some(l) => {
                        match self.find_index(l) {
                            None => Err(RelanotesValidationRejection::InvalidStickyNoteOwner),
                            Some(oi) => {
                                if self.sibling_name_dup(oi, name, id, NodeType::StickyNotes) {
                                    Err(
                                        RelanotesValidationRejection::DuplicateStickyNote(
                                            name.to_owned(),
                                        ),
                                    )
                                } else {
                                    Ok(())
                                }
                            },
                        }
                    },
                }
            },
            NodeType::Inherited => {
                if name.unicode_len() == 0 {
                    return Err(RelanotesValidationRejection::EmptyName);
                }
                match linked_to_id {
                    None => Err(RelanotesValidationRejection::InheritedNodeWithoutOwner),
                    Some(l) => {
                        match self.find_index(l) {
                            None => Err(RelanotesValidationRejection::InvalidInheritedNodeOwner),
                            Some(oi) => {
                                if self.sibling_name_dup(oi, name, id, NodeType::Inherited) {
                                    Err(
                                        RelanotesValidationRejection::DuplicateInheritedNode(
                                            name.to_owned(),
                                        ),
                                    )
                                } else {
                                    Ok(())
                                }
                            },
                        }
                    },
                }
            },
            NodeType::SymLink => {
                if name.unicode_len() != 0 {
                    return Err(RelanotesValidationRejection::SymLinkWithName);
                }
                if description.is_some() {
                    return Err(RelanotesValidationRejection::SymLinkWithDescription);
                }
                match linked_to_id {
                    None => Err(RelanotesValidationRejection::SymLinkWithoutOwner),
                    Some(l) => {
                        if !store.node_exists(l) {
                            Err(RelanotesValidationRejection::InvalidSymLinkOwner)
                        } else if self.find_index(l).is_some() {
                            Err(RelanotesValidationRejection::SymLinkToSameSubgroup)
                        } else {
                            Ok(())
                        }
                    },
                }
            },
        }
    }

    /// Whether the node is loaded and its placement parent is loaded
    /// too.
    pub fn node_has_loaded_parent(&self, node_id: i32) -> (b: bool)
        requires
            self.wf(),
        ensures
            b == self@.has_loaded_parent(node_id as int),
    {
        match self.find_index(node_id) {
            Some(i) => {
                match self.nodes_map[i].parent_node_id {
                    Some(p) => self.find_index(p).is_some(),
                    None => false,
                }
            },
            None => false,
        }
    }

    /// The ids of the loaded nodes with no loaded parent, in
    /// ascending order for deterministic display.
    #[verifier::rlimit(60)]
    pub fn get_roots(&self) -> (r: Vec<i32>)
        requires
            self.wf(),
        ensures
            r@.len() == root_ids_upto(self@, self@.nodes.len() as int).len(),
            forall|k1: int, k2: int| 0 <= k1 < k2 < r@.len() ==> r@[k1] < r@[k2],
            forall|k: int| 0 <= k < r@.len() ==> self@.is_root(#[trigger] r@[k] as int),
            forall|j: int|
                0 <= j < self@.nodes.len() && self@.is_root(#[trigger] self@.nodes[j].id())
                    ==> exists|k: int| 0 <= k < r@.len() && r@[k] as int == self@.nodes[j].id(),
    {
        let ghost t = self@;
        let mut roots: Vec<i32> = Vec::new();
        let mut i: usize = 0;
        while i < self.nodes_map.len()
            invariant
                t == self@,
                i <= t.nodes.len(),
                t.nodes.len() == self.nodes_map@.len(),
                ids_view(roots@) == root_ids_upto(t, i as int),
            decreases t.nodes.len() - i,
        {
            let is_r: bool = match self.nodes_map[i].parent_node_id {
                Some(p) => {
                    let found = find_gn_index(&self.nodes_map, p);
                    proof {
                        if found is Some {
                            let w = found->Some_0;
                            assert(t.nodes[w as int].id() == p as int);
                            assert(t.contains_id(p as int));
                        } else {
                            if t.contains_id(p as int) {
                                let w = choose|w: int|
                                    0 <= w < t.nodes.len() && t.nodes[w].id() == p as int;
                                assert(self.nodes_map@[w]@.id() == p as int);
                                assert(false);
                            }
                        }
                    }
                    found.is_none()
                },
                None => true,
            };
            proof {
                assert(is_r == t.root_at(i as int));
            }
            if is_r {
                let nid = self.nodes_map[i].node.get_node_id();
                roots.push(nid);
                proof {
                    assert(nid as int == t.nodes[i as int].id());
                    assert(ids_view(roots@) =~= ids_view(roots@.drop_last()).push(nid as int));
                }
            }
            i += 1;
        }
        let ghost n = t.nodes.len() as int;
        let ghost orig = roots@;
        proof {
            lemma_root_ids_upto(t, n);
            assert forall|k1: int, k2: int|
                0 <= k1 < k2 < orig.len() implies orig[k1] != orig[k2] by {
                assert(ids_view(orig)[k1] != ids_view(orig)[k2]);
            }
        }
        let out = sort_distinct_ids(roots);
        proof {
            assert forall|k: int| 0 <= k < out@.len() implies self@.is_root(
                #[trigger] out@[k] as int,
            ) by {
                assert(out@.contains(out@[k]));
                assert(orig.contains(out@[k]));
                let w = choose|w: int| 0 <= w < orig.len() && orig[w] == out@[k];
                assert(ids_view(orig)[w] == orig[w] as int);
                assert(root_ids_upto(t, n).contains(out@[k] as int));
                let j = choose|j: int|
                    0 <= j < n && t.nodes[j].id() == out@[k] as int && t.root_at(j);
                let id = t.nodes[j].id();
                assert(t.contains_id(id));
                assert(t.index_of(id) == j) by {
                    let ci = t.index_of(id);
                    assert(0 <= ci < t.nodes.len() && t.nodes[ci].id() == id);
                    assert(ci == j);
                }
                assert(t.node_at(id) == t.nodes[j]);
                assert(!t.has_loaded_parent(id));
            }
            assert forall|j: int|
                0 <= j < self@.nodes.len() && self@.is_root(
                    #[trigger] self@.nodes[j].id(),
                ) implies exists|k: int|
                0 <= k < out@.len() && out@[k] as int == self@.nodes[j].id() by {
                let id = t.nodes[j].id();
                assert(t.index_of(id) == j) by {
                    let ci = t.index_of(id);
                    assert(0 <= ci < t.nodes.len() && t.nodes[ci].id() == id);
                    assert(ci == j);
                }
                assert(t.node_at(id) == t.nodes[j]);
                assert(t.root_at(j));
                assert(root_ids_upto(t, n).contains(id));
                let w = choose|w: int| 0 <= w < ids_view(orig).len() && ids_view(orig)[w] == id;
                assert(orig[w] as int == id);
                assert(orig.contains(orig[w]));
                assert(out@.contains(orig[w]));
                let k = choose|k: int| 0 <= k < out@.len() && out@[k] == orig[w];
                assert(out@[k] as int == id);
            }
        }
        out
    }

    /// How many loaded children the node has, or nothing when the id
    /// is not loaded.
    pub fn get_node_loaded_children_count(&self, id: &i32) -> (r: Option<usize>)
        requires
            self.wf(),
        ensures
            r is Some <==> self@.contains_id(*id as int),
            r matches Some(c) ==> c == self@.node_at(*id as int).children.len(),
    {
        match self.find_index(*id) {
            Some(i) => Some(self.nodes_map[i].children.len()),
            None => None,
        }
    }

    /// The ids of the node's loaded children, in discovery order, or
    /// nothing when the id is not loaded.
    pub fn get_node_loaded_children(&self, id: &i32) -> (r: Option<Vec<i32>>)
        requires
            self.wf(),
        ensures
            r is Some <==> self@.contains_id(*id as int),
            r matches Some(v) ==> ids_view(v@) == self@.node_at(*id as int).children,
    {
        match self.find_index(*id) {
            Some(i) => {
                let v = self.nodes_map[i].children.clone();
                proof {
                    assert(ids_view(v@) =~= self@.node_at(*id as int).children);
                }
                Some(v)
            },
            None => None,
        }
    }

    /// The id of the node's loaded placement parent.  A missing node
    /// is told apart from a loaded node without a loaded parent:
    /// nothing for the former, an empty inner value for the latter.
    pub fn get_node_loaded_parent(&self, id: &i32) -> (r: Option<Option<i32>>)
        requires
            self.wf(),
        ensures
            r is Some <==> self@.contains_id(*id as int),
            r matches Some(p) ==> ({
                &&& p is Some <==> self@.has_loaded_parent(*id as int)
                &&& p matches Some(q) ==> self@.node_at(*id as int).parent_node_id == Some(
                    q as int,
                )
            }),
    {
        match self.find_index(*id) {
            Some(i) => {
                match self.nodes_map[i].parent_node_id {
                    Some(p) => {
                        match self.find_index(p) {
                            Some(pi) => Some(Some(self.nodes_map[pi].node.get_node_id())),
                            None => Some(None),
                        }
                    },
                    None => Some(None),
                }
            },
            None => None,
        }
    }
}

/// View of a vector of ids.
pub open spec fn ids_view(s: Seq<i32>) -> Seq<int> {
    Seq::new(s.len(), |i: int| s[i] as int)
}

/// Sorts a vector of pairwise-distinct ids into ascending order,
/// keeping exactly its elements.
pub(crate) fn sort_distinct_ids(v: Vec<i32>) -> (r: Vec<i32>)
    requires
        forall|k1: int, k2: int| 0 <= k1 < k2 < v@.len() ==> v@[k1] != v@[k2],
    ensures
        r@.len() == v@.len(),
        forall|k1: int, k2: int| 0 <= k1 < k2 < r@.len() ==> r@[k1] < r@[k2],
        forall|x: i32| r@.contains(x) <==> v@.contains(x),
{
    let ghost orig = v@;
    let mut roots = v;
    let mut out: Vec<i32> = Vec::new();
    while roots.len() > 0
        invariant
            out@.len() + roots@.len() == orig.len(),
            forall|k1: int, k2: int| 0 <= k1 < k2 < out@.len() ==> out@[k1] < out@[k2],
            forall|k: int, q: int|
                0 <= k < out@.len() && 0 <= q < roots@.len() ==> out@[k] < roots@[q],
            forall|k1: int, k2: int| 0 <= k1 < k2 < roots@.len() ==> roots@[k1] != roots@[k2],
            forall|x: i32| orig.contains(x) <==> (out@.contains(x) || roots@.contains(x)),
            forall|x: i32| #[trigger] out@.contains(x) ==> orig.contains(x),
            forall|x: i32| #[trigger] roots@.contains(x) ==> orig.contains(x),
        decreases roots@.len(),
    {
        let mut mi: usize = 0;
        let mut j: usize = 1;
        while j < roots.len()
            invariant
                mi < j <= roots@.len() || (j == 1 && mi == 0 && roots@.len() >= 1),
                mi < roots@.len(),
                forall|q: int| 0 <= q < j ==> roots@[mi as int] <= roots@[q],
            decreases roots@.len() - j,
        {
            if roots[j] < roots[mi] {
                mi = j;
            }
            j += 1;
        }
        let ghost before = roots@;
        let m = roots.remove(mi);
        proof {
            assert(m == before[mi as int]);
            assert(forall|q: int| 0 <= q < before.len() ==> m <= before[q]);
            assert forall|q: int| 0 <= q < roots@.len() implies m < roots@[q] by {
                let qi: int = if q < mi as int {
                    q
                } else {
                    q + 1
                };
                assert(roots@[q] == before[qi]);
                assert(qi != mi as int);
                assert(before[mi as int] != before[qi]);
            }
            assert forall|x: i32| #[trigger] roots@.contains(x) implies before.contains(x) by {
                let w = choose|w: int| 0 <= w < roots@.len() && roots@[w] == x;
                let wi: int = if w < mi as int {
                    w
                } else {
                    w + 1
                };
                assert(before[wi] == x);
            }
            assert forall|x: i32| before.contains(x) implies (roots@.contains(x) || x == m) by {
                let w = choose|w: int| 0 <= w < before.len() && before[w] == x;
                if w < mi as int {
                    assert(roots@[w] == x);
                } else if w > mi as int {
                    assert(roots@[w - 1] == x);
                }
            }
            assert forall|k1: int, k2: int|
                0 <= k1 < k2 < roots@.len() implies roots@[k1] != roots@[k2] by {
                let i1: int = if k1 < mi as int {
                    k1
                } else {
                    k1 + 1
                };
                let i2: int = if k2 < mi as int {
                    k2
                } else {
                    k2 + 1
                };
                assert(roots@[k1] == before[i1] && roots@[k2] == before[i2]);
            }
            assert(before.contains(m));
        }
        let ghost prev_out = out@;
        proof {
            assert forall|k: int| 0 <= k < prev_out.len() implies prev_out[k] < m by {
                assert(prev_out[k] < before[mi as int]);
            }
        }
        out.push(m);
        proof {
            assert(out@.last() == m);
            assert forall|x: i32| #[trigger] out@.contains(x) implies orig.contains(x) by {
                let w = choose|w: int| 0 <= w < out@.len() && out@[w] == x;
                if w < out@.len() - 1 {
                    assert(prev_out[w] == x);
                    assert(prev_out.contains(x));
                } else {
                    assert(x == m);
                    assert(before.contains(m));
                }
            }
            assert forall|x: i32| orig.contains(x) implies (out@.contains(x) || roots@.contains(
                x,
            )) by {
                if prev_out.contains(x) {
                    let w = choose|w: int| 0 <= w < prev_out.len() && prev_out[w] == x;
                    assert(out@[w] == x);
                } else if before.contains(x) {
                    if x == m {
                        assert(out@[out@.len() - 1] == x);
                    } else {
                        assert(roots@.contains(x));
                    }
                }
            }
        }
    }
    out
}


/// Whether child entry `k` of the owner's children duplicates the
/// given name among loaded siblings of the given kind, leaving out
/// the node named by `exclude`.
pub open spec fn sibling_dup_at(
    t: TreeV,
    owner: int,
    name: Seq<char>,
    exclude: Option<int>,
    kind: NodeType,
    k: int,
) -> bool {
    &&& 0 <= k < t.node_at(owner).children.len()
    &&& {
        let c = t.node_at(owner).children[k];
        &&& t.contains_id(c)
        &&& t.node_at(c).node.kind() == kind
        &&& t.node_at(c).node.name() == name
        &&& match exclude {
            Some(e) => c != e,
            None => true,
        }
    }
}

/// Whether some loaded sibling under the owner duplicates the name.
pub open spec fn sibling_dup_exists(
    t: TreeV,
    owner: int,
    name: Seq<char>,
    exclude: Option<int>,
    kind: NodeType,
) -> bool {
    exists|k: int| sibling_dup_at(t, owner, name, exclude, kind, k)
}

/// The type id the registry holds for regular nodes (meaningful on a
/// complete registry).
pub open spec fn regular_type_id_of(types: Seq<(int, NodeType)>) -> int {
    match registry_lookup_id(types, NodeType::Regular) {
        Some(tid) => tid,
        None => 0,
    }
}

/// The validation rulebook, evaluated fail-fast in rule order: the
/// subgroup-scope check first, then the kind's name rules, then the
/// kind's link rules.  `id` names the node being mutated, so that a
/// mutation does not collide with itself; a creation passes none.
/// The result is the first rejection hit, or nothing when the
/// mutation or creation is acceptable.
pub open spec fn validate_spec(
    t: TreeV,
    s: StoreV,
    id: Option<int>,
    name: Seq<char>,
    description: Option<Seq<char>>,
    linked_to_id: Option<int>,
    subgroup_id: int,
    group_id: int,
    node_type: NodeType,
) -> Option<RejectionV> {
    if subgroup_id != t.subgroup_id {
        Some(
            RejectionV::TryingToMutateOtherSubgroup {
                current: t.subgroup_id,
                checking: subgroup_id,
            },
        )
    } else {
        match node_type {
            NodeType::Regular => {
                if name.len() == 0 {
                    Some(RejectionV::EmptyName)
                } else if regular_dup_exists(
                    s,
                    group_id,
                    name,
                    id,
                    regular_type_id_of(t.types),
                ) {
                    Some(RejectionV::DuplicateRegularNode(name))
                } else {
                    None
                }
            },
            NodeType::StickyNotes => {
                if name.len() == 0 {
                    Some(RejectionV::EmptyName)
                } else {
                    match linked_to_id {
                        None => Some(RejectionV::StickyNoteWithoutOwner),
                        Some(l) => {
                            if !t.contains_id(l) {
                                Some(RejectionV::InvalidStickyNoteOwner)
                            } else if sibling_dup_exists(
                                t,
                                l,
                                name,
                                id,
                                NodeType::StickyNotes,
                            ) {
                                Some(RejectionV::DuplicateStickyNote(name))
                            } else {
                                None
                            }
                        },
                    }
                }
            },
            NodeType::Inherited => {
                if name.len() == 0 {
                    Some(RejectionV::EmptyName)
                } else {
                    match linked_to_id {
                        None => Some(RejectionV::InheritedNodeWithoutOwner),
                        Some(l) => {
                            if !t.contains_id(l) {
                                Some(RejectionV::InvalidInheritedNodeOwner)
                            } else if sibling_dup_exists(t, l, name, id, NodeType::Inherited) {
                                Some(RejectionV::DuplicateInheritedNode(name))
                            } else {
                                None
                            }
                        },
                    }
                }
            },
            NodeType::SymLink => {
                if name.len() != 0 {
                    Some(RejectionV::SymLinkWithName)
                } else if description is Some {
                    Some(RejectionV::SymLinkWithDescription)
                } else {
                    match linked_to_id {
                        None => Some(RejectionV::SymLinkWithoutOwner),
                        Some(l) => {
                            if !has_node_row(s.nodes, l) {
                                Some(RejectionV::InvalidSymLinkOwner)
                            } else if t.contains_id(l) {
                                Some(RejectionV::SymLinkToSameSubgroup)
                            } else {
                                None
                            }
                        },
                    }
                }
            },
        }
    }
}

/// The rejection a validation result carries, if any.
pub open spec fn rejection_of(r: Result<(), RelanotesValidationRejection>) -> Option<RejectionV> {
    match r {
        Ok(_) => None,
        Err(e) => Some(e@),
    }
}

/// The kind a row hydrates under; rows whose type id the registry
/// does not know default to regular, a case hydration refuses anyway.
pub open spec fn resolved_kind(types: Seq<(int, NodeType)>, type_id: int) -> NodeType {
    match registry_lookup_kind(types, type_id) {
        Some(k) => k,
        None => NodeType::Regular,
    }
}

/// Whether a row hydrates: its type id is registered and a graph node
/// can be built from it.
pub open spec fn row_hydrates(
    types: Seq<(int, NodeType)>,
    row: NodeRowV,
    store_nodes: Seq<NodeRowV>,
) -> bool {
    &&& registry_lookup_kind(types, row.type_id) is Some
    &&& gn_constructible(row, resolved_kind(types, row.type_id), store_nodes)
}

/// Whether every row of a subgroup hydrates.
pub open spec fn hydrate_ok(
    rows: Seq<NodeRowV>,
    types: Seq<(int, NodeType)>,
    store_nodes: Seq<NodeRowV>,
) -> bool {
    forall|i: int| 0 <= i < rows.len() ==> #[trigger] row_hydrates(types, rows[i], store_nodes)
}

/// The first hydration pass: every row becomes a graph node with no
/// children yet, in row order.
pub open spec fn pass_one(
    rows: Seq<NodeRowV>,
    types: Seq<(int, NodeType)>,
    store_nodes: Seq<NodeRowV>,
) -> Seq<GraphNodeV> {
    Seq::new(
        rows.len(),
        |i: int| graph_node_of(rows[i], resolved_kind(types, rows[i].type_id), store_nodes),
    )
}

/// The children the node with the given id has collected after the
/// first `j` nodes were walked for attachment: the ids of those among
/// them whose placement parent is that id, in walk order.
pub open spec fn children_upto(base: Seq<GraphNodeV>, j: int, id: int) -> Seq<int>
    decreases j,
{
    if j <= 0 {
        Seq::empty()
    } else {
        let prev = children_upto(base, j - 1, id);
        if base[j - 1].parent_node_id == Some(id) {
            prev.push(base[j - 1].id())
        } else {
            prev
        }
    }
}

/// The second hydration pass: every node's children are the nodes
/// that name it as their placement parent, in discovery order.
pub open spec fn hydrated(base: Seq<GraphNodeV>) -> Seq<GraphNodeV> {
    Seq::new(
        base.len(),
        |i: int| GraphNodeV {
            node: base[i].node,
            parent_node_id: base[i].parent_node_id,
            children: children_upto(base, base.len() as int, base[i].id()),
        },
    )
}

/// Whether the ids in a sequence of graph nodes are pairwise distinct.
pub open spec fn gn_ids_distinct(base: Seq<GraphNodeV>) -> bool {
    forall|i: int, j: int| 0 <= i < j < base.len() ==> base[i].id() != base[j].id()
}

/// An id stands in `children_upto(base, j, id)` exactly when one of
/// the first `j` nodes carries it and names `id` as its placement
/// parent; no id stands there twice.
pub proof fn lemma_children_upto(base: Seq<GraphNodeV>, j: int, id: int)
    requires
        gn_ids_distinct(base),
        j <= base.len(),
    ensures
        forall|x: int|
            #[trigger] children_upto(base, j, id).contains(x) <==> exists|w: int|
                0 <= w < j && base[w].id() == x && base[w].parent_node_id == Some(id),
        forall|k1: int, k2: int|
            0 <= k1 < k2 < children_upto(base, j, id).len() ==> children_upto(base, j, id)[k1]
                != children_upto(base, j, id)[k2],
    decreases j,
{
    if j > 0 {
        lemma_children_upto(base, j - 1, id);
        let prev = children_upto(base, j - 1, id);
        let cur = children_upto(base, j, id);
        if base[j - 1].parent_node_id == Some(id) {
            assert(cur == prev.push(base[j - 1].id()));
            assert forall|x: int| #[trigger] cur.contains(x) implies exists|w: int|
                0 <= w < j && base[w].id() == x && base[w].parent_node_id == Some(id) by {
                let k = choose|k: int| 0 <= k < cur.len() && cur[k] == x;
                if k < prev.len() {
                    assert(prev[k] == x);
                    assert(prev.contains(x));
                } else {
                    assert(base[j - 1].id() == x);
                }
            }
            assert forall|x: int|
                (exists|w: int|
                    0 <= w < j && base[w].id() == x && base[w].parent_node_id == Some(
                        id,
                    )) implies #[trigger] cur.contains(x) by {
                let w = choose|w: int|
                    0 <= w < j && base[w].id() == x && base[w].parent_node_id == Some(id);
                if w < j - 1 {
                    assert(prev.contains(x));
                    let k = choose|k: int| 0 <= k < prev.len() && prev[k] == x;
                    assert(cur[k] == x);
                } else {
                    assert(cur[cur.len() - 1] == x);
                }
            }
            assert forall|k1: int, k2: int|
                0 <= k1 < k2 < cur.len() implies cur[k1] != cur[k2] by {
                if k2 == cur.len() - 1 {
                    assert(prev[k1] == cur[k1]);
                    assert(prev.contains(cur[k1]));
                    let w = choose|w: int|
                        0 <= w < j - 1 && base[w].id() == cur[k1] && base[w].parent_node_id
                            == Some(id);
                    assert(base[w].id() != base[j - 1].id());
                }
            }
        } else {
            assert(cur == prev);
            assert forall|x: int| #[trigger] cur.contains(x) implies exists|w: int|
                0 <= w < j && base[w].id() == x && base[w].parent_node_id == Some(id) by {
                assert(prev.contains(x));
            }
            assert forall|x: int|
                (exists|w: int|
                    0 <= w < j && base[w].id() == x && base[w].parent_node_id == Some(
                        id,
                    )) implies #[trigger] cur.contains(x) by {
                let w = choose|w: int|
                    0 <= w < j && base[w].id() == x && base[w].parent_node_id == Some(id);
                assert(w < j - 1);
                assert(prev.contains(x));
            }
        }
    }
}

/// View of a vector of registry entries.
pub open spec fn mapping_view(m: Seq<(i32, NodeType)>) -> Seq<(int, NodeType)> {
    Seq::new(m.len(), |i: int| (m[i].0 as int, m[i].1))
}

/// Whether the registry holds an entry of the given kind.
fn registry_kind_known(mapping: &Vec<(i32, NodeType)>, kind: NodeType) -> (b: bool)
    ensures
        b == (registry_lookup_id(mapping_view(mapping@), kind) is Some),
{
    let ghost types = mapping_view(mapping@);
    proof {
        assert(types.skip(0) =~= types);
    }
    let mut i: usize = 0;
    while i < mapping.len()
        invariant
            types == mapping_view(mapping@),
            i <= types.len(),
            registry_lookup_id(types, kind) == registry_lookup_id(types.skip(i as int), kind),
        decreases types.len() - i,
    {
        proof {
            assert(types.skip(i as int).first() == types[i as int]);
            assert(types.skip(i as int).drop_first() =~= types.skip(i + 1));
        }
        if mapping[i].1 == kind {
            proof {
                assert(registry_lookup_id(types.skip(i as int), kind) == Some(types[i as int].0));
            }
            return true;
        }
        i += 1;
    }
    proof {
        assert(types.skip(types.len() as int) =~= Seq::<(int, NodeType)>::empty());
    }
    false
}

/// Whether some graph node in the sequence carries the given id.
pub open spec fn gn_contains_id(ns: Seq<GraphNodeV>, id: int) -> bool {
    exists|i: int| 0 <= i < ns.len() && ns[i].id() == id
}

/// The index of the graph node with the given id (meaningful when it
/// is there and ids are distinct).
pub open spec fn gn_index_of(ns: Seq<GraphNodeV>, id: int) -> int {
    choose|i: int| 0 <= i < ns.len() && ns[i].id() == id
}

/// A freshly created node registered in the tree: appended, and, when
/// its placement parent is loaded, appended to that parent's children.
pub open spec fn register_node(ns: Seq<GraphNodeV>, gn: GraphNodeV) -> Seq<GraphNodeV> {
    let ns1 = ns.push(gn);
    match gn.parent_node_id {
        Some(p) => if gn_contains_id(ns, p) {
            let pi = gn_index_of(ns, p);
            ns1.update(
                pi,
                GraphNodeV {
                    node: ns[pi].node,
                    parent_node_id: ns[pi].parent_node_id,
                    children: ns[pi].children.push(gn.id()),
                },
            )
        } else {
            ns1
        },
        None => ns1,
    }
}

/// The node row a creation would insert: the store's next id, the
/// given link, type, name, description and subgroup.
pub open spec fn created_row(
    s: StoreV,
    linked_to_id: Option<int>,
    type_id: int,
    name: Seq<char>,
    description: Option<Seq<char>>,
    subgroup_id: int,
) -> NodeRowV {
    NodeRowV {
        id: s.next_node_id,
        linked_to_id: linked_to_id,
        type_id: type_id,
        name: name,
        description: description,
        subgroup_id: subgroup_id,
    }
}

/// When a creation succeeds: the type id is registered, the
/// validation rulebook passes, the id the store would assign is not
/// already loaded nor named as a parent by a loaded node, and the
/// row's foreign keys resolve.
pub open spec fn create_ok(
    t: TreeV,
    s: StoreV,
    linked_to_id: Option<int>,
    subgroup_id: int,
    group_id: int,
    type_id: int,
    name: Seq<char>,
    description: Option<Seq<char>>,
) -> bool {
    &&& registry_lookup_kind(t.types, type_id) is Some
    &&& validate_spec(
        t,
        s,
        None,
        name,
        description,
        linked_to_id,
        subgroup_id,
        group_id,
        resolved_kind(t.types, type_id),
    ) is None
    &&& !t.contains_id(s.next_node_id)
    &&& forall|k: int|
        0 <= k < t.nodes.len() ==> #[trigger] t.nodes[k].parent_node_id != Some(s.next_node_id)
    &&& crate::store::insert_node_ok(s, linked_to_id, type_id, subgroup_id)
}

/// Registering a fresh node in a tree with consistent adjacency keeps
/// the adjacency consistent, provided the new id is not yet loaded
/// and no loaded node already names it as parent.
pub proof fn lemma_register_wf(t_old: TreeV, t_new: TreeV, gn: GraphNodeV)
    requires
        t_old.ids_distinct(),
        t_old.parents_derived(),
        t_old.children_point_back(),
        t_old.parents_attached(),
        t_old.children_all_distinct(),
        gn.children == Seq::<int>::empty(),
        gn.parent_node_id == gn.node.placement(),
        gn.parent_node_id != Some(gn.id()),
        !t_old.contains_id(gn.id()),
        forall|k: int|
            0 <= k < t_old.nodes.len() ==> #[trigger] t_old.nodes[k].parent_node_id != Some(
                gn.id(),
            ),
        t_new.nodes == register_node(t_old.nodes, gn),
    ensures
        t_new.ids_distinct(),
        t_new.parents_derived(),
        t_new.children_point_back(),
        t_new.parents_attached(),
        t_new.children_all_distinct(),
{
    let ns = t_old.nodes;
    let n = ns.len() as int;
    let nn = t_new.nodes;
    let attach = gn.parent_node_id matches Some(p) && gn_contains_id(ns, p);
    let pi: int = if attach {
        gn_index_of(ns, gn.parent_node_id->Some_0)
    } else {
        -1
    };
    if attach {
        assert(0 <= pi < n && ns[pi].id() == gn.parent_node_id->Some_0);
    }
    // Shape of the new sequence.
    assert(nn.len() == n + 1);
    assert(nn[n] == gn);
    assert(forall|i: int| 0 <= i < n && i != pi ==> nn[i] == ns[i]);
    if attach {
        assert(nn[pi].node == ns[pi].node);
        assert(nn[pi].parent_node_id == ns[pi].parent_node_id);
        assert(nn[pi].children == ns[pi].children.push(gn.id()));
    }
    assert(forall|i: int| 0 <= i < n ==> #[trigger] nn[i].id() == ns[i].id());
    assert(forall|i: int| 0 <= i < n ==> #[trigger] nn[i].parent_node_id == ns[i].parent_node_id);
    assert forall|id: int| #[trigger] t_new.contains_id(id) <==> (t_old.contains_id(id) || id
        == gn.id()) by {
        if t_old.contains_id(id) {
            let w = choose|w: int| 0 <= w < n && ns[w].id() == id;
            assert(nn[w].id() == id);
        }
        if t_new.contains_id(id) && id != gn.id() {
            let w = choose|w: int| 0 <= w < nn.len() && nn[w].id() == id;
            assert(w < n);
            assert(ns[w].id() == id);
        }
    }
    // Ids stay distinct: the new id was not loaded.
    assert forall|i: int, j: int|
        0 <= i < j < nn.len() implies nn[i].id() != nn[j].id() by {
        if j == n {
            assert(t_old.contains_id(ns[i].id()));
        }
    }
    // Index lookups are stable for old ids.
    assert forall|id: int|
        t_old.contains_id(id) implies #[trigger] t_new.index_of(id) == t_old.index_of(id) by {
        let wo = t_old.index_of(id);
        assert(0 <= wo < n && ns[wo].id() == id);
        assert(nn[wo].id() == id);
        assert(t_new.contains_id(id));
        let wn = t_new.index_of(id);
        assert(0 <= wn < nn.len() && nn[wn].id() == id);
        if wn == n {
            assert(gn.id() == id);
            assert(t_old.contains_id(gn.id()));
        }
        assert(ns[wn].id() == id);
        assert(wn == wo);
    }
    assert(t_new.parents_derived());
    assert forall|i: int, k: int|
        0 <= i < nn.len() && 0 <= k < nn[i].children.len() implies #[trigger] t_new
        .child_entry_ok(i, k) by {
        if i == n {
            // The new node has no children.
        } else if attach && i == pi && k == nn[pi].children.len() - 1 {
            // The freshly attached child is the new node.
            assert(nn[pi].children[k] == gn.id());
            assert(t_new.contains_id(gn.id())) by {
                assert(nn[n].id() == gn.id());
            }
            assert(t_new.index_of(gn.id()) == n) by {
                let w = t_new.index_of(gn.id());
                assert(0 <= w < nn.len() && nn[w].id() == gn.id());
                if w < n {
                    assert(t_old.contains_id(gn.id()));
                }
            }
            assert(t_new.node_at(gn.id()).parent_node_id == Some(nn[pi].id()));
        } else {
            // An old child entry.
            let c = ns[i].children[k];
            assert(t_old.child_entry_ok(i, k));
            assert(t_old.contains_id(c));
            assert(t_new.node_at(c) == nn[t_old.index_of(c)]);
            assert(nn[i].children[k] == c);
            assert(t_new.node_at(c).parent_node_id == Some(nn[i].id()));
        }
    }
    assert forall|j: int| 0 <= j < nn.len() implies #[trigger] t_new.parent_attached_at(j) by {
        match nn[j].parent_node_id {
            Some(p) => {
                if t_new.contains_id(p) {
                    if j == n {
                        // The new node: its parent, when loaded, just
                        // received it.
                        assert(p != gn.id());
                        assert(t_old.contains_id(p));
                        assert(t_old.index_of(p) == pi);
                        assert(t_new.index_of(p) == pi);
                        assert(nn[pi].children.last() == gn.id());
                    } else {
                        assert(ns[j].parent_node_id != Some(gn.id()));
                        assert(nn[j].parent_node_id == ns[j].parent_node_id);
                        assert(p != gn.id());
                        assert(t_old.contains_id(p));
                        assert(t_old.parent_attached_at(j));
                        assert(t_old.node_at(p).children.contains(ns[j].id()));
                        let po = t_old.index_of(p);
                        assert(t_new.index_of(p) == po);
                        let ck = choose|ck: int|
                            0 <= ck < ns[po].children.len() && ns[po].children[ck] == ns[j].id();
                        assert(nn[po].children[ck] == ns[j].id());
                        assert(t_new.node_at(p).children.contains(nn[j].id()));
                    }
                }
            },
            None => {},
        }
    }
    assert forall|i: int| 0 <= i < nn.len() implies #[trigger] t_new.children_distinct_at(
        i,
    ) by {
        if i < n {
            assert(t_old.children_distinct_at(i));
            if attach && i == pi {
                assert forall|k1: int, k2: int|
                    0 <= k1 < k2 < nn[pi].children.len() implies nn[pi].children[k1]
                    != nn[pi].children[k2] by {
                    if k2 == nn[pi].children.len() - 1 {
                        assert(t_old.child_entry_ok(pi, k1));
                        assert(t_old.contains_id(ns[pi].children[k1]));
                        assert(nn[pi].children[k2] == gn.id());
                    }
                }
            }
        }
    }
}

/// A graph node with its name and description replaced; adjacency,
/// id and kind stand as they were.
pub open spec fn renamed_graph_node(
    g: GraphNodeV,
    name: Seq<char>,
    description: Option<Seq<char>>,
) -> GraphNodeV {
    GraphNodeV {
        node: g.node.renamed(name, description),
        parent_node_id: g.parent_node_id,
        children: g.children,
    }
}

/// When a mutation of name and description is accepted: the node is
/// loaded, it is no symlink, and the validation rulebook passes with
/// the node itself left out of the duplicate checks.
pub open spec fn update_ok(
    t: TreeV,
    s: StoreV,
    id: int,
    name: Seq<char>,
    description: Option<Seq<char>>,
    group_id: int,
) -> bool {
    &&& t.contains_id(id)
    &&& t.node_at(id).node.kind() != NodeType::SymLink
    &&& validate_spec(
        t,
        s,
        Some(id),
        name,
        description,
        t.node_at(id).node.raw_link(),
        t.subgroup_id,
        group_id,
        t.node_at(id).node.kind(),
    ) is None
}

/// Renaming one loaded node keeps the adjacency consistent: ids,
/// links and children stand as they were.
pub proof fn lemma_rename_wf(t_old: TreeV, t_new: TreeV, id: int)
    requires
        t_old.ids_distinct(),
        t_old.parents_derived(),
        t_old.children_point_back(),
        t_old.parents_attached(),
        t_old.children_all_distinct(),
        t_old.contains_id(id),
        exists|name: Seq<char>, description: Option<Seq<char>>|
            t_new.nodes == t_old.nodes.update(
                t_old.index_of(id),
                renamed_graph_node(t_old.node_at(id), name, description),
            ),
    ensures
        t_new.ids_distinct(),
        t_new.parents_derived(),
        t_new.children_point_back(),
        t_new.parents_attached(),
        t_new.children_all_distinct(),
{
    let ns = t_old.nodes;
    let nn = t_new.nodes;
    let idx = t_old.index_of(id);
    assert(0 <= idx < ns.len() && ns[idx].id() == id);
    assert(nn.len() == ns.len());
    assert forall|i: int| 0 <= i < ns.len() implies (#[trigger] nn[i].id() == ns[i].id()
        && nn[i].parent_node_id == ns[i].parent_node_id && nn[i].children == ns[i].children
        && nn[i].node.placement() == ns[i].node.placement()) by {}
    assert forall|x: int| #[trigger] t_new.contains_id(x) <==> t_old.contains_id(x) by {
        if t_old.contains_id(x) {
            let w = choose|w: int| 0 <= w < ns.len() && ns[w].id() == x;
            assert(nn[w].id() == x);
        }
        if t_new.contains_id(x) {
            let w = choose|w: int| 0 <= w < nn.len() && nn[w].id() == x;
            assert(ns[w].id() == x);
        }
    }
    assert forall|x: int|
        t_old.contains_id(x) implies #[trigger] t_new.index_of(x) == t_old.index_of(x) by {
        let wo = t_old.index_of(x);
        assert(0 <= wo < ns.len() && ns[wo].id() == x);
        assert(nn[wo].id() == x);
        let wn = t_new.index_of(x);
        assert(0 <= wn < nn.len() && nn[wn].id() == x);
        assert(ns[wn].id() == x);
        assert(wn == wo);
    }
    assert forall|i: int, k: int|
        0 <= i < nn.len() && 0 <= k < nn[i].children.len() implies #[trigger] t_new
        .child_entry_ok(i, k) by {
        assert(t_old.child_entry_ok(i, k));
        let c = ns[i].children[k];
        assert(t_old.contains_id(c));
        assert(t_new.node_at(c).parent_node_id == t_old.node_at(c).parent_node_id);
    }
    assert forall|j: int| 0 <= j < nn.len() implies #[trigger] t_new.parent_attached_at(j) by {
        assert(t_old.parent_attached_at(j));
        match nn[j].parent_node_id {
            Some(p) => {
                if t_new.contains_id(p) {
                    assert(t_old.contains_id(p));
                    assert(t_new.node_at(p).children == t_old.node_at(p).children);
                }
            },
            None => {},
        }
    }
    assert forall|i: int| 0 <= i < nn.len() implies #[trigger] t_new.children_distinct_at(
        i,
    ) by {
        assert(t_old.children_distinct_at(i));
    }
}

/// A tree whose nodes are a hydration result is well-formed in every
/// adjacency respect: hydration attaches exactly the placement
/// children, each once, pointing back.
pub proof fn lemma_hydrated_wf(t: TreeV, base: Seq<GraphNodeV>)
    requires
        t.nodes == hydrated(base),
        gn_ids_distinct(base),
        forall|i: int|
            0 <= i < base.len() ==> #[trigger] base[i].parent_node_id
                == base[i].node.placement(),
    ensures
        t.ids_distinct(),
        t.parents_derived(),
        t.children_point_back(),
        t.parents_attached(),
        t.children_all_distinct(),
{
    let n = base.len() as int;
    assert(forall|i: int| 0 <= i < n ==> #[trigger] t.nodes[i].id() == base[i].id());
    assert forall|i: int, k: int|
        0 <= i < t.nodes.len() && 0 <= k < t.nodes[i].children.len() implies #[trigger] t
        .child_entry_ok(i, k) by {
        let id = base[i].id();
        lemma_children_upto(base, n, id);
        let ch = children_upto(base, n, id);
        assert(t.nodes[i].children == ch);
        let x = ch[k];
        assert(ch.contains(x));
        let w = choose|w: int|
            0 <= w < n && base[w].id() == x && base[w].parent_node_id == Some(id);
        assert(t.nodes[w].id() == x);
        assert(t.contains_id(x));
        let ci = t.index_of(x);
        assert(0 <= ci < n && t.nodes[ci].id() == x);
        assert(ci == w);
        assert(t.node_at(x).parent_node_id == Some(t.nodes[i].id()));
    }
    assert forall|j: int| 0 <= j < t.nodes.len() implies #[trigger] t.parent_attached_at(j) by {
        match t.nodes[j].parent_node_id {
            Some(p) => {
                if t.contains_id(p) {
                    let pi = t.index_of(p);
                    assert(0 <= pi < n && t.nodes[pi].id() == p);
                    lemma_children_upto(base, n, p);
                    assert(base[j].id() == t.nodes[j].id());
                    assert(base[j].parent_node_id == Some(p));
                    assert(children_upto(base, n, p).contains(base[j].id()));
                    assert(t.node_at(p).children == children_upto(base, n, p));
                }
            },
            None => {},
        }
    }
    assert forall|i: int| 0 <= i < t.nodes.len() implies #[trigger] t.children_distinct_at(
        i,
    ) by {
        lemma_children_upto(base, n, base[i].id());
    }
}

/// The index of the graph node with the given id, if one is there.
fn find_gn_index(v: &Vec<GraphNode>, id: i32) -> (r: Option<usize>)
    ensures
        r is Some <==> exists|i: int| 0 <= i < v@.len() && v@[i]@.id() == id as int,
        r matches Some(i) ==> (i < v@.len() && v@[i as int]@.id() == id as int && forall|k: int|
            0 <= k < i ==> v@[k]@.id() != id as int),
{
    let mut i: usize = 0;
    while i < v.len()
        invariant
            i <= v@.len(),
            forall|k: int| 0 <= k < i ==> v@[k]@.id() != id as int,
        decreases v@.len() - i,
    {
        if v[i].node.get_node_id() == id {
            return Some(i);
        }
        i += 1;
    }
    None
}

/// The index of the first occurrence of `x` (meaningful when the
/// sequence contains it).
pub open spec fn first_index_of_id(s: Seq<int>, x: int) -> int
    decreases s.len(),
{
    if s.len() == 0 {
        0
    } else if s.first() == x {
        0
    } else {
        1 + first_index_of_id(s.drop_first(), x)
    }
}

/// When `s` contains `x`, its first occurrence is a valid index, holds
/// `x`, and nothing before it is `x`.
pub proof fn lemma_first_index_of_id(s: Seq<int>, x: int)
    requires
        s.contains(x),
    ensures
        0 <= first_index_of_id(s, x) < s.len(),
        s[first_index_of_id(s, x)] == x,
        forall|k: int| 0 <= k < first_index_of_id(s, x) ==> s[k] != x,
    decreases s.len(),
{
    if s.first() == x {
    } else {
        assert(s.drop_first().contains(x)) by {
            let w = choose|w: int| 0 <= w < s.len() && s[w] == x;
            assert(s.drop_first()[w - 1] == x);
        }
        lemma_first_index_of_id(s.drop_first(), x);
        assert forall|k: int| 0 <= k < first_index_of_id(s, x) implies s[k] != x by {
            if k > 0 {
                assert(s.drop_first()[k - 1] == s[k]);
            }
        }
    }
}

} // verus!
