//! Anomaly scoring for a stream of timestamped edges `(source, dest, time)`:
//! the exact, integer part.
//!
//! Every event is counted in count-min sketches, hashed arrays of counters
//! that may count too much but never too little. `Midas` keeps one sketch for
//! the current tick and one for all time, and answers each event with the two
//! estimates that the score of its edge is a ratio of. `MidasR` lets its
//! current counters decay instead of emptying them: those counters are
//! real-valued and stay with the caller, whom the detector tells at each event
//! by how many ticks to decay them and which cells to raise.

use vstd::prelude::*;

pub mod default;
pub mod hashing;
pub mod layout;
pub mod midas;
pub mod midas_r;
pub mod rng;
pub mod row;
pub mod sketch;
pub mod stream;

pub use midas::{Evidence, Midas, MidasParams};
pub use midas_r::{MidasR, MidasRParams, Reading, Step};

verus! {

/// The integer type of node identifiers, times and counts.
pub type Int = u64;

} // verus!
