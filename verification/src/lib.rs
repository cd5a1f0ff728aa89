//! Radix-2 transform engine: an in-place complex FFT and a real-input FFT
//! built on top of it.
//!
//! The integer and structural core lives here and is verified: size
//! validation, the bit-reversal table and the permutation it drives, and the
//! exact rearrangements between the packed and the full Hermitian spectrum.
//! The floating-point butterfly arithmetic itself cannot be verified and is
//! left to the surrounding application code, which drives it through the
//! contexts of this crate.

pub mod cfft;
pub mod rfft;

use vstd::prelude::*;

verus! {

/// The single checked failure: a transform size outside the supported set.
#[derive(Debug, Clone, Copy, PartialEq, Eq, Structural)]
pub enum Error {
    InvalidSize,
}

} // verus!
