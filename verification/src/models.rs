//! Row types of the four persisted relations, together with their
//! mathematical views.

use vstd::prelude::*;

verus! {

/// A row of the `node_types` relation: one of the fixed seed rows that
/// map a type id to a kind name.
pub struct NodeTypeElement {
    pub id: i32,
    pub name: String,
    pub value: String,
}

/// A row of the `groups` relation.
pub struct GroupElement {
    pub id: i32,
    pub name: String,
}

/// A row of the `subgroups` relation.
pub struct SubGroupElement {
    pub id: i32,
    pub group_id: i32,
    pub name: String,
}

/// A row of the `nodes` relation.  `linked_to_id` is the kind-dependent
/// link field; `description` may be absent.
pub struct NodeElement {
    pub id: i32,
    pub linked_to_id: Option<i32>,
    pub type_id: i32,
    pub name: String,
    pub description: Option<String>,
    pub subgroup_id: i32,
}

/// Mathematical view of a `node_types` row.
pub ghost struct NodeTypeRowV {
    pub id: int,
    pub name: Seq<char>,
    pub value: Seq<char>,
}

/// Mathematical view of a `groups` row.
pub ghost struct GroupRowV {
    pub id: int,
    pub name: Seq<char>,
}

/// Mathematical view of a `subgroups` row.
pub ghost struct SubGroupRowV {
    pub id: int,
    pub group_id: int,
    pub name: Seq<char>,
}

/// Mathematical view of a `nodes` row.
pub ghost struct NodeRowV {
    pub id: int,
    pub linked_to_id: Option<int>,
    pub type_id: int,
    pub name: Seq<char>,
    pub description: Option<Seq<char>>,
    pub subgroup_id: int,
}

impl View for NodeTypeElement {
    type V = NodeTypeRowV;

    open spec fn view(&self) -> NodeTypeRowV {
        NodeTypeRowV { id: self.id as int, name: self.name@, value: self.value@ }
    }
}

impl View for GroupElement {
    type V = GroupRowV;

    open spec fn view(&self) -> GroupRowV {
        GroupRowV { id: self.id as int, name: self.name@ }
    }
}

impl View for SubGroupElement {
    type V = SubGroupRowV;

    open spec fn view(&self) -> SubGroupRowV {
        SubGroupRowV { id: self.id as int, group_id: self.group_id as int, name: self.name@ }
    }
}

/// View of an optional id as an optional mathematical integer.
pub open spec fn opt_id_view(o: Option<i32>) -> Option<int> {
    match o {
        Some(i) => Some(i as int),
        None => None,
    }
}

/// View of an optional string as an optional character sequence.
pub open spec fn opt_str_view(o: &Option<String>) -> Option<Seq<char>> {
    match o {
        Some(s) => Some(s@),
        None => None,
    }
}

/// View of an optional string slice as an optional character sequence.
pub open spec fn opt_str_ref_view(o: Option<&str>) -> Option<Seq<char>> {
    match o {
        Some(s) => Some(s@),
        None => None,
    }
}

/// Content equality of two string slices, stated over their views.
pub fn str_eq(a: &str, b: &str) -> (r: bool)
    ensures
        r == (a@ == b@),
{
    let sa: String = a.to_owned();
    let sb: String = b.to_owned();
    sa == sb
}

impl View for NodeElement {
    type V = NodeRowV;

    open spec fn view(&self) -> NodeRowV {
        NodeRowV {
            id: self.id as int,
            linked_to_id: opt_id_view(self.linked_to_id),
            type_id: self.type_id as int,
            name: self.name@,
            description: opt_str_view(&self.description),
            subgroup_id: self.subgroup_id as int,
        }
    }
}

impl NodeElement {
    /// Field-by-field copy; the copy has the same view as the original.
    pub fn duplicate(&self) -> (r: NodeElement)
        ensures
            r@ == self@,
    {
        NodeElement {
            id: self.id,
            linked_to_id: self.linked_to_id,
            type_id: self.type_id,
            name: self.name.clone(),
            description: match &self.description {
                Some(d) => Some(d.clone()),
                None => None,
            },
            subgroup_id: self.subgroup_id,
        }
    }
}

impl GroupElement {
    /// Field-by-field copy; the copy has the same view as the original.
    pub fn duplicate(&self) -> (r: GroupElement)
        ensures
            r@ == self@,
    {
        GroupElement { id: self.id, name: self.name.clone() }
    }
}

impl SubGroupElement {
    /// Field-by-field copy; the copy has the same view as the original.
    pub fn duplicate(&self) -> (r: SubGroupElement)
        ensures
            r@ == self@,
    {
        SubGroupElement { id: self.id, group_id: self.group_id, name: self.name.clone() }
    }
}

} // verus!
