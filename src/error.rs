use vstd::prelude::*;

verus! {

/// What can go wrong when building or scoring a forest.
#[derive(Debug, Clone, Copy, PartialEq, Eq, Structural)]
pub enum ForestError {
    /// Rows of unequal length, or rows with no column at all.
    ShapeMismatch,
    /// A matrix with no row where at least one is needed.
    EmptyInput,
    /// A scored row whose length differs from the trained column count.
    IndexOutOfRange,
    /// Scoring was asked of a forest that holds no tree.
    NotFitted,
}

} // verus!
