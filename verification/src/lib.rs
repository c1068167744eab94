//! Worker-side runtime of a distributed entity-component simulation.
//!
//! A worker process receives a stream of operations from a central fabric,
//! maintains a local chunked columnar view of entities and their components,
//! runs user systems over that view each tick, and replicates local mutations
//! back to the fabric.  This crate holds the verified core: the entity store,
//! change tracking, the op-dispatch state machine, the in-flight request
//! registry, and the schema model that code generation consumes.  Connecting
//! to a fabric, user closures, and parallel fan-out live with the embedding
//! program, which drives the tick loop through the `World` facade.

pub mod chunk;
pub mod codegen;
pub mod column;
pub mod commands;
pub mod data;
pub mod dispatch;
pub mod ops;
pub mod schema;
pub mod signature;
pub mod store;
pub mod template;
pub mod worker;
pub mod world;

use vstd::prelude::*;

verus! {

/// Entity identifiers are assigned by the fabric.
pub type EntityId = i64;

/// Component identifiers are fixed by the schema.
pub type ComponentId = u32;

/// Identifies an in-flight request issued by this worker or a peer.
pub type RequestId = u32;

} // verus!
