use vstd::prelude::*;

verus! {

/// Errors that can occur when managing a taxonomy. Every fallible operation
/// reports one of these and leaves the structure unchanged (except for the
/// partial states `remove_recursively` documents).
#[derive(Clone, Debug)]
pub enum TaxonomyError {
    /// The edge (a superordinate node and one of its subordinates) already
    /// exists.
    DuplicateEdge(Option<String>, String),
    /// A node with this identity is already part of the taxonomy.
    DuplicateNode(String),
    /// The node is already a root node of the taxonomy.
    DuplicateRootNode(String),
    /// The node is already a subordinate of this superordinate node.
    DuplicateSubNode(String, String),
    /// The edge does not exist in the taxonomy.
    EdgeNotFound(Option<String>, String),
    /// The requested relationship would create a cycle.
    LoopDetected(String),
    /// The node still has at least one subordinate node.
    NodeHasSubNode(String),
    /// No node with this identity exists in the taxonomy.
    NodeNotFound(String),
    /// Source and destination of a move are equal (reserved; never produced
    /// by the current operations).
    SourceEqualsDestination,
}

/// Abstract value of a [`TaxonomyError`]: the same case with each identifier
/// taken as a sequence of characters.
pub ghost enum ErrorView {
    DuplicateEdge(Option<Seq<char>>, Seq<char>),
    DuplicateNode(Seq<char>),
    DuplicateRootNode(Seq<char>),
    DuplicateSubNode(Seq<char>, Seq<char>),
    EdgeNotFound(Option<Seq<char>>, Seq<char>),
    LoopDetected(Seq<char>),
    NodeHasSubNode(Seq<char>),
    NodeNotFound(Seq<char>),
    SourceEqualsDestination,
}

impl View for TaxonomyError {
    type V = ErrorView;

    open spec fn view(&self) -> ErrorView {
        match self {
            TaxonomyError::DuplicateEdge(s, n) => ErrorView::DuplicateEdge(s.deep_view(), n@),
            TaxonomyError::DuplicateNode(n) => ErrorView::DuplicateNode(n@),
            TaxonomyError::DuplicateRootNode(n) => ErrorView::DuplicateRootNode(n@),
            TaxonomyError::DuplicateSubNode(s, n) => ErrorView::DuplicateSubNode(s@, n@),
            TaxonomyError::EdgeNotFound(s, n) => ErrorView::EdgeNotFound(s.deep_view(), n@),
            TaxonomyError::LoopDetected(n) => ErrorView::LoopDetected(n@),
            TaxonomyError::NodeHasSubNode(n) => ErrorView::NodeHasSubNode(n@),
            TaxonomyError::NodeNotFound(n) => ErrorView::NodeNotFound(n@),
            TaxonomyError::SourceEqualsDestination => ErrorView::SourceEqualsDestination,
        }
    }
}

/// Compares two optional identifiers by their character contents.
fn opt_id_eq(a: &Option<String>, b: &Option<String>) -> (r: bool)
    ensures
        r == (a.deep_view() == b.deep_view()),
{
    match (a, b) {
        (None, None) => true,
        (Some(x), Some(y)) => *x == *y,
        _ => false,
    }
}

impl PartialEq for TaxonomyError {
    /// Two errors are equal when they are the same case and carry the same
    /// identifiers.
    fn eq(&self, other: &TaxonomyError) -> (r: bool) {
        match (self, other) {
            (TaxonomyError::DuplicateEdge(s1, n1), TaxonomyError::DuplicateEdge(s2, n2)) => {
                opt_id_eq(s1, s2) && *n1 == *n2
            },
            (TaxonomyError::DuplicateNode(n1), TaxonomyError::DuplicateNode(n2)) => *n1 == *n2,
            (TaxonomyError::DuplicateRootNode(n1), TaxonomyError::DuplicateRootNode(n2)) => {
                *n1 == *n2
            },
            (TaxonomyError::DuplicateSubNode(s1, n1), TaxonomyError::DuplicateSubNode(s2, n2)) => {
                *s1 == *s2 && *n1 == *n2
            },
            (TaxonomyError::EdgeNotFound(s1, n1), TaxonomyError::EdgeNotFound(s2, n2)) => {
                opt_id_eq(s1, s2) && *n1 == *n2
            },
            (TaxonomyError::LoopDetected(n1), TaxonomyError::LoopDetected(n2)) => *n1 == *n2,
            (TaxonomyError::NodeHasSubNode(n1), TaxonomyError::NodeHasSubNode(n2)) => *n1 == *n2,
            (TaxonomyError::NodeNotFound(n1), TaxonomyError::NodeNotFound(n2)) => *n1 == *n2,
            (TaxonomyError::SourceEqualsDestination, TaxonomyError::SourceEqualsDestination) => {
                true
            },
            _ => false,
        }
    }
}

impl vstd::std_specs::cmp::PartialEqSpecImpl for TaxonomyError {
    open spec fn obeys_eq_spec() -> bool {
        true
    }

    open spec fn eq_spec(&self, other: &TaxonomyError) -> bool {
        self@ == other@
    }
}

} // verus!
