//! The operations the fabric delivers and the messages the worker sends
//! back.
//!
//! Inbound component data arrives in snapshot form (one value per field);
//! inbound updates arrive in delta form.  Command request and response
//! payloads cross the boundary as plain value rows.

use crate::data::ComponentUpdate;
use crate::template::EntityTemplate;
use crate::worker::Authority;
use crate::worker::CommandStatus;
use crate::worker::LogLevel;
use crate::ComponentId;
use crate::EntityId;
use crate::RequestId;
use vstd::prelude::*;

verus! {

/// One operation delivered by the fabric.
pub enum Op {
    /// Brackets a batch of entity-construction ops that arrives atomically;
    /// `true` opens the section, `false` closes it.
    CriticalSection(bool),
    /// A new entity enters the worker's view (inside a critical section).
    AddEntity(EntityId),
    /// An entity leaves the worker's view.
    RemoveEntity(EntityId),
    /// Initial data for one component of an entity added this critical
    /// section, in snapshot form.
    AddComponent(EntityId, ComponentId, Vec<i64>),
    /// A component leaves an entity: its signature bit clears, and an
    /// admitted entity migrates to a chunk of the smaller signature.
    RemoveComponent(EntityId, ComponentId),
    /// A delta for one component of an entity.
    ComponentUpdate(EntityId, ComponentId, ComponentUpdate),
    /// The fabric's latest authority signal for one component of an entity.
    AuthorityChange(EntityId, ComponentId, Authority),
    /// The fabric answers an entity-creation request of this worker.
    CreateEntityResponse(RequestId, EntityId, CommandStatus, String),
    /// The fabric answers an entity-deletion request of this worker.
    DeleteEntityResponse(RequestId, EntityId, CommandStatus, String),
    /// A peer sends a command to an entity this worker is authoritative
    /// over: request id, target entity, component, command index, payload.
    CommandRequest(RequestId, EntityId, ComponentId, u32, Vec<i64>),
    /// The fabric answers a command request of this worker: request id,
    /// target entity, payload (on success), status and message.
    CommandResponse(RequestId, EntityId, Option<Vec<i64>>, CommandStatus, String),
    /// Recognised but ignored by the dispatcher.
    Disconnect,
    /// Recognised but ignored by the dispatcher.
    FlagUpdate,
    /// Recognised but ignored by the dispatcher.
    LogMessage,
    /// Recognised but ignored by the dispatcher.
    Metrics,
    /// Recognised but ignored by the dispatcher.
    ReserveEntityIdResponse,
    /// Recognised but ignored by the dispatcher.
    ReserveEntityIdsResponse,
    /// Recognised but ignored by the dispatcher.
    EntityQueryResponse,
    /// An op this worker does not recognise.
    Unknown,
}

/// The batch of operations one fabric poll delivered, in fabric order.
pub struct OpList {
    pub ops: Vec<Op>,
}

impl OpList {
    /// An empty op list.
    pub fn new() -> (r: OpList)
        ensures
            r.ops@.len() == 0,
    {
        OpList { ops: Vec::new() }
    }
}

/// One message the worker hands to the fabric.
pub enum OutgoingMessage {
    /// A locally produced delta for one component of one entity.
    ComponentUpdate { entity_id: EntityId, component_id: ComponentId, update: ComponentUpdate },
    /// The response a registered handler produced for an inbound command.
    CommandResponse { request_id: RequestId, component_id: ComponentId, payload: Vec<i64> },
    /// A command this worker sends to an entity, with the optional timeout
    /// the fabric enforces.
    CommandRequest {
        request_id: RequestId,
        entity_id: EntityId,
        component_id: ComponentId,
        command_index: u32,
        payload: Vec<i64>,
        timeout_millis: Option<u32>,
    },
    /// A request to create an entity from a template.
    CreateEntityRequest { request_id: RequestId, template: EntityTemplate },
    /// A request to delete an entity.
    DeleteEntityRequest { request_id: RequestId, entity_id: EntityId },
    /// A log line for the fabric's out-of-band log.
    LogMessage { level: LogLevel, logger_name: String, message: String },
}

/// One action op dispatch asks the driver to take: invoke a user handler or
/// fire a parked callback.  Each in-flight request fires at most one
/// success-or-failure event; duplicate deliveries from the fabric are
/// ignored.
pub enum WorldEvent {
    /// A registered command handler must run and answer through
    /// `send_command_response` with the same request id.
    HandlerInvocation {
        request_id: RequestId,
        entity_id: EntityId,
        component_id: ComponentId,
        command_index: u32,
        payload: Vec<i64>,
    },
    /// A command this worker sent succeeded.
    CommandSuccess { request_id: RequestId, entity_id: EntityId, payload: Option<Vec<i64>> },
    /// A command this worker sent failed.
    CommandFailure { request_id: RequestId, status: CommandStatus, message: String },
    /// An entity-creation request of this worker succeeded.
    CreateEntitySuccess { request_id: RequestId, entity_id: EntityId },
    /// An entity-creation request of this worker failed.
    CreateEntityFailure { request_id: RequestId, status: CommandStatus, message: String },
    /// An entity-deletion request of this worker succeeded.
    DeleteEntitySuccess { request_id: RequestId, entity_id: EntityId },
    /// An entity-deletion request of this worker failed.
    DeleteEntityFailure { request_id: RequestId, status: CommandStatus, message: String },
}

} // verus!
