//! Agent causal consistency: the vector-clock engine and causally consistent
//! sessions over a shared append-only memory.

use vstd::prelude::*;

pub mod acc;
pub mod frontier;
pub mod vector_clock;

verus! {

/// The semantic version of the consistency layer.
pub fn version() -> (v: &'static str)
    ensures
        v@ == "0.1.0"@,
{
    let v = "0.1.0";
    proof {
        reveal_strlit("0.1.0");
    }
    v
}

} // verus!
