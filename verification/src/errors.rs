use vstd::prelude::*;

verus! {

/// The typed failures that tree operations report to the caller.
///
/// Every fallible operation is atomic with respect to tree state: on
/// failure the tree is left exactly as it was before the call.
#[derive(Debug, Clone, Copy, PartialEq, Eq, Structural)]
pub enum TpnTreeError {
    /// The tree's region does not geometrically contain the coordinates
    /// of a query or insert target.
    DoesNotSpan,
    /// The node was asked to divide although it is already internal.
    CanNotDivide,
}

} // verus!
