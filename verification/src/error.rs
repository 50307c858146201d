use vstd::prelude::*;

verus! {

/// Why a lookup table could not be built from the samples it was given.
#[derive(Debug, Clone, Copy, PartialEq, Eq, Structural)]
pub enum ConstructionError {
    /// Two adjacent breakpoints of an axis are not more than the tolerance apart, in
    /// increasing order.
    IncreasingDimOrderError,
    /// A breakpoint or a value is NaN or infinite.
    ContainingNansOrInfinities,
    /// An axis or a value sequence holds fewer than two entries.
    MinLengthError,
}

impl ConstructionError {
    /// The sentence that describes the error.
    pub open spec fn message_spec(self) -> Seq<char> {
        match self {
            ConstructionError::IncreasingDimOrderError =>
                "Independent Dimension values should be in strictly increasing order"@,
            ConstructionError::ContainingNansOrInfinities =>
                "Cannot create a Lookup Table containing NaNs or Infinities"@,
            ConstructionError::MinLengthError =>
                "At least two values should be provided for all dimensions"@,
        }
    }

    /// Returns the sentence that describes the error.
    pub fn message(&self) -> (text: &'static str)
        ensures
            text@ == self.message_spec(),
    {
        match self {
            ConstructionError::IncreasingDimOrderError =>
                "Independent Dimension values should be in strictly increasing order",
            ConstructionError::ContainingNansOrInfinities =>
                "Cannot create a Lookup Table containing NaNs or Infinities",
            ConstructionError::MinLengthError =>
                "At least two values should be provided for all dimensions",
        }
    }
}

} // verus!
