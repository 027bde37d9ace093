use vstd::prelude::*;

verus! {

/// A handle that wraps a 32-bit position in some dense, append-only storage.
pub trait TypedIndex: Sized + Copy {
    /// The position this handle stands for.
    spec fn index(&self) -> nat;

    /// Builds the handle for position `i`.
    fn from_index(i: usize) -> (r: Self)
        requires
            i <= u32::MAX,
        ensures
            r.index() == i,
    ;

    /// The position this handle stands for.
    fn to_index(&self) -> (r: usize)
        ensures
            r == self.index(),
    ;
}

} // verus!
