//! Interpolating lookup tables over IEEE-754 binary64 samples.
//!
//! A table is built from breakpoints and values that are validated once; a
//! query returns the stored value at a breakpoint, a linear (or bilinear)
//! interpolation between breakpoints, and the boundary value outside the
//! sampled domain. Every number crosses the interface as the 64-bit pattern
//! of a double, and all arithmetic on those patterns is carried out, and
//! proved, on integers.

pub mod axis;
pub mod binary64;
pub mod error;
pub mod oned_lut;
pub mod twod_lut;

pub use error::ConstructionError;
pub use oned_lut::{OneDLookUpTable, OneDLookUpTableRef};
pub use twod_lut::{TwoDLookUpTable, TwoDLookUpTableRef};

use vstd::prelude::*;

verus! {

/// The least distance, exclusive, between adjacent breakpoints: the double
/// nearest to 1e-8.
pub const EPSILON: u64 = 0x3e45_798e_e230_8c3a;

} // verus!
