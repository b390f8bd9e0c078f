use vstd::prelude::*;

verus! {

/// Number of consecutive bins held by one stored window (bin vector).
pub const BIN_VEC_SIZE: i32 = 32;

} // verus!
