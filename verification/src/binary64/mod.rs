//! IEEE-754 binary64 numbers, handled as their 64-bit patterns.
//!
//! `format` reads the fields of a pattern and gives each pattern its
//! mathematical value; `order` compares patterns as the numbers they encode;
//! `rounding` says which double is nearest to a rational, and `pack` finds it; `arith`
//! adds, subtracts, multiplies and divides, each result being the exact one
//! rounded to nearest, ties to even; `monotone` shows what order survives the
//! rounding.

pub mod arith;
pub mod format;
pub mod monotone;
pub mod order;
pub mod pack;
pub mod rounding;
