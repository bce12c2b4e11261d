//! Record kinds: the stable one-byte tag identifying a record type on disk
//! (used to route write-ahead-log entries to the right store).

use vstd::prelude::*;

verus! {

/// A stable one-byte tag identifying a record type on disk.
#[derive(Clone, Copy, Debug, PartialEq, Eq, Hash, Structural)]
pub enum RecordKind {
    /// An episodic record.
    Episodic,
    /// A semantic record.
    Semantic,
    /// A procedural record.
    Procedural,
    /// A working-memory record.
    Working,
    /// A causal edge.
    CausalEdge,
}

/// The wire tag of each kind.
pub open spec fn kind_tag(k: RecordKind) -> u8 {
    match k {
        RecordKind::Episodic => 1,
        RecordKind::Semantic => 2,
        RecordKind::Procedural => 3,
        RecordKind::Working => 4,
        RecordKind::CausalEdge => 5,
    }
}

/// The kind a wire tag names, if any.
pub open spec fn kind_of_tag(tag: u8) -> Option<RecordKind> {
    if tag == 1 {
        Some(RecordKind::Episodic)
    } else if tag == 2 {
        Some(RecordKind::Semantic)
    } else if tag == 3 {
        Some(RecordKind::Procedural)
    } else if tag == 4 {
        Some(RecordKind::Working)
    } else if tag == 5 {
        Some(RecordKind::CausalEdge)
    } else {
        None
    }
}

impl RecordKind {
    /// The stable wire tag for this kind.
    pub fn as_u8(self) -> (tag: u8)
        ensures
            tag == kind_tag(self),
    {
        match self {
            RecordKind::Episodic => 1,
            RecordKind::Semantic => 2,
            RecordKind::Procedural => 3,
            RecordKind::Working => 4,
            RecordKind::CausalEdge => 5,
        }
    }

    /// Recover a kind from its wire tag.
    pub fn from_u8(tag: u8) -> (k: Option<RecordKind>)
        ensures
            k == kind_of_tag(tag),
    {
        match tag {
            1 => Some(RecordKind::Episodic),
            2 => Some(RecordKind::Semantic),
            3 => Some(RecordKind::Procedural),
            4 => Some(RecordKind::Working),
            5 => Some(RecordKind::CausalEdge),
            _ => None,
        }
    }
}

/// Tags round-trip: decoding a kind's tag gives the kind back, and every tag that
/// decodes is the tag of the kind it decodes to (so tags are distinct).
pub proof fn lemma_kind_tag_round_trip(k: RecordKind, tag: u8)
    ensures
        kind_of_tag(kind_tag(k)) == Some(k),
        kind_of_tag(tag) matches Some(k2) ==> kind_tag(k2) == tag,
        kind_of_tag(tag) is Some <==> 1 <= tag <= 5,
{
}

} // verus!
