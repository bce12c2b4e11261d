//! Shared core types: identifiers, timestamps and the injectable clock and
//! randomness sources, the event and edge taxonomies, the record kinds, and the
//! errors that the layers above build on.

use vstd::prelude::*;

pub mod codec;
pub mod error;
pub mod event;
pub mod ids;
pub mod records;
pub mod rng;
pub mod text;
pub mod time;

verus! {

/// The semantic version of the core layer.
pub fn version() -> (v: &'static str)
    ensures
        v@ == "0.1.0"@,
{
    let v = "0.1.0";
    proof {
        reveal_strlit("0.1.0");
    }
    v
}

} // verus!
