//! Fixed-point numbers: a value `v` of the complex plane is held as the
//! integer `v * SCALE`, rounded down.
use vstd::prelude::*;

verus! {

/// The integer that stands for the value 1: 16 fractional bits.
pub const SCALE: i64 = 65536;

/// Side of the square sub-sampling pattern of one block.
pub const SUB: usize = 8;

/// Number of lanes of one batch: one lane per sub-sample.
pub const LANES: usize = 64;

/// Whether an integer fits in `i32`.
pub open spec fn in_i32(v: int) -> bool {
    i32::MIN <= v <= i32::MAX
}

} // verus!
