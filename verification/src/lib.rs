//! Execution core of a peer-to-peer compute node.
//!
//! Particles — signed, time-bounded scripts — are admitted, deduplicated into
//! per-key actor mailboxes, dispatched to a bounded pool of interpreter VMs,
//! and their effects routed back into the node or out to remote peers.
//! A discovery behaviour coordinates peer lookups over a DHT with timeouts,
//! failure counting and banning.
//!
//! Everything the logic decides is verified here over plain values; the
//! asynchronous runtime, the DHT transport and the interpreter itself are
//! capabilities whose outcomes the callers feed in as events.

pub mod actor;
pub mod config;
pub mod deadline;
pub mod effects;
pub mod error;
pub mod kademlia;
pub mod particle;
pub mod plumber;
pub mod token;
pub mod vm_pool;
