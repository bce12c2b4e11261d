//! Engram: a storage engine for AI-agent memory — identifiers and time, vector
//! clocks and causally consistent sessions, a copy-on-write B-tree, the
//! write-ahead log format, the four memory stores and the causal-provenance DAG.

pub mod base;
pub mod cli;
pub mod consistency;
pub mod query;
pub mod server;
pub mod storage;
