//! An in-memory taxonomy: a cycle-free, order-preserving classification
//! structure in which an item may stand under more than one superordinate
//! item and the structure as a whole may have several root items.
//!
//! The central type is [`Taxonomy`], which owns every node, validates each
//! relationship change (duplicate edges and cycles are rejected before any
//! mutation), and offers a resumable pre-order depth-first walk.
//!
//! Every operation carries a contract describing exactly how it changes the
//! abstract state of the structure, and the structural invariants (no
//! duplicate edges, no cycles, no dangling references, consistent parent and
//! child lists) are verified to hold after every operation.

pub mod cursor;
pub mod edge;
pub mod identity;
pub mod laws;
pub mod node;
pub mod reach;
pub mod taxonomy;
pub mod taxonomy_error;

pub use crate::cursor::Cursor;
pub use crate::edge::Edge;
pub use crate::identity::Identity;
pub use crate::node::Node;
pub use crate::taxonomy::Taxonomy;
pub use crate::taxonomy_error::TaxonomyError;
