use vstd::prelude::*;

verus! {

/// The one capability an element type must provide: a deterministic,
/// equality-comparable identifier. Two elements with the same identifier are
/// treated as the same node by the taxonomy.
pub trait Identity {
    /// The identifier as a mathematical value; `id` returns exactly this.
    spec fn id_spec(&self) -> Seq<char>;

    /// Returns the element's unique identifier. It must be deterministic and
    /// stable for as long as the element is stored.
    fn id(&self) -> (r: String)
        ensures
            r@ == self.id_spec(),
    ;
}

} // verus!
