//! Arbitrary-precision arithmetic on 64-bit limbs, fixed-point Newton
//! iterations, and a binary-splitting evaluation of the Chudnovsky series.
use vstd::prelude::*;

pub mod limbs;
pub mod bigint;
pub mod digits;
pub mod number;
pub mod binary_fixed;
pub mod isqrt;
pub mod newton;
pub mod reciprocal;
pub mod drm;
pub mod formula;

verus! {

} // verus!
