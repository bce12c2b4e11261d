//! The query layer's verified parts: extracting consolidation signals from
//! episodic events.

use vstd::prelude::*;

pub mod consolidation;

verus! {

/// The semantic version of the query layer.
pub fn version() -> (v: &'static str)
    ensures
        v@ == "0.1.0"@,
{
    let v = "0.1.0";
    proof {
        reveal_strlit("0.1.0");
    }
    v
}

} // verus!
