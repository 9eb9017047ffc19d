use vstd::prelude::*;

verus! {

/// The outcome of one step of a short-circuiting traversal: either the
/// traversal goes on with an updated accumulator, or it stops early and
/// carries a residual value out to the caller.
#[derive(Clone, Copy, Debug, PartialEq, Eq)]
pub enum Flow<B, R> {
    /// The traversal continues with this accumulator.
    Continue(B),
    /// The traversal stops here; the residual is handed to the caller.
    Break(R),
}

} // verus!
