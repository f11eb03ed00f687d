//! The types of NAL units.
use vstd::prelude::*;

verus! {

/// A slice of a picture that refers to others.
pub const SLICE_NON_IDR: u8 = 1;

/// A slice of a picture from which decoding can begin.
pub const SLICE_IDR: u8 = 5;

pub const SEI: u8 = 6;

pub const SPS: u8 = 7;

pub const PPS: u8 = 8;

pub const AUD: u8 = 9;

} // verus!
