use vstd::prelude::*;

verus! {

/// Number of rows in each sketch.
pub const NUM_ROWS: u64 = 2;

/// Number of buckets in each row.
pub const NUM_BUCKETS: u64 = 769;

/// Mixing constant of the edge sketches.
pub const M_VALUE: u64 = 773;

} // verus!
