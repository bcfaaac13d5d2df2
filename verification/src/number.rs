//! Multi-precision numbers in base 2^64 with explicit limb counts: integers
//! that keep their length, and reals scaled by a power of the base.
use vstd::prelude::*;

pub mod integer;
pub mod reals;

verus! {

/// One base-2^64 digit.
pub type Digit = u64;

} // verus!
