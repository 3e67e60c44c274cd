use vstd::prelude::*;

verus! {

/// One frame of the traversal position stack: the walk currently stands on
/// the `node_index`-th entry of `super_id`'s child list, or, when `super_id`
/// is `None`, on the `node_index`-th root.
#[derive(Clone, Debug)]
pub struct Cursor {
    super_id: Option<String>,
    node_index: usize,
}

/// The abstract value of a [`Cursor`] frame.
pub ghost struct CursorView {
    pub super_id: Option<Seq<char>>,
    pub node_index: int,
}

impl View for Cursor {
    type V = CursorView;

    closed spec fn view(&self) -> CursorView {
        CursorView {
            super_id: self.super_id.deep_view(),
            node_index: self.node_index as int,
        }
    }
}

impl Cursor {
    /// Creates a frame addressing the `node_index`-th child of `super_id`
    /// (or the `node_index`-th root for `None`).
    pub fn new(super_id: Option<String>, node_index: usize) -> (c: Cursor)
        ensures
            c@.super_id == super_id.deep_view(),
            c@.node_index == node_index as int,
    {
        Cursor { super_id, node_index }
    }

    /// Returns the frame's superordinate node, `None` when it addresses a
    /// root.
    pub fn super_id(&self) -> (r: Option<String>)
        ensures
            r.deep_view() == self@.super_id,
    {
        match &self.super_id {
            None => None,
            Some(s) => Some(s.clone()),
        }
    }

    /// Returns the index into the superordinate node's child list (or the
    /// root list).
    pub fn node_index(&self) -> (r: usize)
        ensures
            r as int == self@.node_index,
    {
        self.node_index
    }
}

} // verus!
