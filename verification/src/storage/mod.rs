//! The storage engine: an ordered copy-on-write index with snapshot reads, the
//! write-ahead log format and its recovery rules, and the memory stores.

use vstd::prelude::*;

pub mod btree;
pub mod causal;
pub mod common;
pub mod episodic;
pub mod error;
pub mod graph;
pub mod key;
pub mod procedural;
pub mod semantic;
pub mod wal;
pub mod working;

verus! {

/// The semantic version of the storage layer.
pub fn version() -> (v: &'static str)
    ensures
        v@ == "0.1.0"@,
{
    let v = "0.1.0";
    proof {
        reveal_strlit("0.1.0");
    }
    v
}

} // verus!
