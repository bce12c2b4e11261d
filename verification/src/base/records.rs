//! The memory record types (episodic, procedural, working) and the causal edge.
//! Semantic beliefs live with their store, which carries their confidence and
//! decay curve opaquely.

use vstd::prelude::*;

use crate::base::event::{EdgeType, EventType};
use crate::base::ids::{AgentId, MemoryId, SessionId};
use crate::base::time::Timestamp;

verus! {

/// An **episodic** memory: an immutable, append-only record of something that
/// happened (a tool call, message, observation, or action).
#[derive(Clone, Debug, PartialEq, Eq)]
pub struct EpisodicRecord {
    /// Unique, time-sortable id.
    pub id: MemoryId,
    /// The agent that produced the event.
    pub agent_id: AgentId,
    /// The session the event belongs to.
    pub session_id: SessionId,
    /// When the event is considered to have occurred (valid-time).
    pub valid_time: Timestamp,
    /// When the event was recorded (transaction-time).
    pub tx_time: Timestamp,
    /// The kind of event.
    pub event_type: EventType,
    /// Opaque application payload.
    pub payload: Vec<u8>,
    /// Ids of the memories/events that caused this one (provenance).
    pub cause_ids: Vec<MemoryId>,
}

/// A **procedural** memory: a versioned skill. Newer versions `supersede` older
/// ones, forming a chain.
#[derive(Clone, Debug, PartialEq, Eq)]
pub struct ProceduralRecord {
    /// Unique id of this skill version.
    pub id: MemoryId,
    /// The agent that owns the skill.
    pub agent_id: AgentId,
    /// Human-readable skill name.
    pub name: String,
    /// Monotonically increasing version number.
    pub version: u32,
    /// Opaque encoded steps of the procedure.
    pub steps: Vec<u8>,
    /// The previous version this one replaces, if any.
    pub supersedes: Option<MemoryId>,
    /// Start of validity (valid-time).
    pub valid_from: Timestamp,
    /// When this version was recorded (transaction-time).
    pub tx_from: Timestamp,
}

/// A **working** memory: a bounded scratchpad entry.
#[derive(Clone, Debug, PartialEq, Eq)]
pub struct WorkingMemoryRecord {
    /// Unique id.
    pub id: MemoryId,
    /// The agent the scratchpad belongs to.
    pub agent_id: AgentId,
    /// The session the entry belongs to.
    pub session_id: SessionId,
    /// When the entry was created.
    pub created: Timestamp,
    /// Opaque payload.
    pub payload: Vec<u8>,
}

/// An edge in the causal-provenance DAG: `from_id` caused `to_id` with the given
/// relationship.
#[derive(Clone, Copy, Debug, PartialEq, Eq, Hash, Structural)]
pub struct CausalEdge {
    /// The cause.
    pub from_id: MemoryId,
    /// The effect.
    pub to_id: MemoryId,
    /// The relationship type.
    pub edge_type: EdgeType,
}

} // verus!
