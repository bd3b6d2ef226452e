use vstd::prelude::*;

verus! {

/// What can go wrong while planning.
#[derive(Clone, Copy, Debug, PartialEq, Eq, Structural)]
pub enum PlanError {
    /// The recipe and drop store could not be reached.
    DataSourceUnavailable,
    /// Expansion went deeper than any acyclic recipe graph allows.
    CyclicRecipe,
    /// A quantity left the range of a 16-bit signed integer.
    QuantityOverflow,
}

} // verus!
