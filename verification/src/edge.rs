use vstd::prelude::*;

verus! {

/// An `Edge` is a pair of nodes with a super/sub relationship.
///
/// A node with more than one superordinate node takes part in more than one
/// edge; an `Edge` therefore names one distinct placement of a node. A
/// `super_id` of `None` denotes a root placement.
#[derive(Clone, Debug)]
pub struct Edge {
    super_id: Option<String>,
    node_id: String,
}

/// The abstract value of an [`Edge`]: the two identifiers as sequences.
pub ghost struct EdgeView {
    pub super_id: Option<Seq<char>>,
    pub node_id: Seq<char>,
}

impl View for Edge {
    type V = EdgeView;

    closed spec fn view(&self) -> EdgeView {
        EdgeView { super_id: self.super_id.deep_view(), node_id: self.node_id@ }
    }
}

impl Edge {
    /// Creates an edge from a superordinate node (or `None` for a root
    /// placement) to a subordinate node.
    pub fn new(super_id: Option<String>, node_id: String) -> (e: Edge)
        ensures
            e@.super_id == super_id.deep_view(),
            e@.node_id == node_id@,
    {
        Edge { super_id, node_id }
    }

    /// Returns the superordinate side of the edge, `None` for a root
    /// placement.
    pub fn super_id(&self) -> (r: Option<String>)
        ensures
            r.deep_view() == self@.super_id,
    {
        match &self.super_id {
            None => None,
            Some(s) => Some(s.clone()),
        }
    }

    /// Returns the subordinate side of the edge.
    pub fn node_id(&self) -> (r: String)
        ensures
            r@ == self@.node_id,
    {
        self.node_id.clone()
    }
}

impl PartialEq for Edge {
    /// Two edges are equal when both their sides carry the same
    /// identifiers.
    fn eq(&self, other: &Edge) -> (r: bool) {
        let sup_eq = match (&self.super_id, &other.super_id) {
            (None, None) => true,
            (Some(a), Some(b)) => *a == *b,
            _ => false,
        };
        sup_eq && self.node_id == other.node_id
    }
}

impl vstd::std_specs::cmp::PartialEqSpecImpl for Edge {
    open spec fn obeys_eq_spec() -> bool {
        true
    }

    open spec fn eq_spec(&self, other: &Edge) -> bool {
        self@ == other@
    }
}

} // verus!
