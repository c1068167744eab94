use spatialos_gdk::ops::Op;
use spatialos_gdk::ops::OpList;
use spatialos_gdk::ops::OutgoingMessage;
use spatialos_gdk::ops::WorldEvent;
use spatialos_gdk::schema::ComponentDescriptor;
use spatialos_gdk::template::EntityTemplate;
use spatialos_gdk::template::Worker;
use spatialos_gdk::schema::Schema;
use spatialos_gdk::worker::Authority;
use spatialos_gdk::worker::CommandStatus;
use spatialos_gdk::world::World;

fn demo_schema() -> Schema {
    // component 1: three scalar fields, one event buffer
    // component 2: one scalar field, no events
    Schema::new(vec![
        ComponentDescriptor::new(1, 3, 1),
        ComponentDescriptor::new(2, 1, 0),
    ])
    .unwrap()
}

fn admit_entity_ops(entity_id: i64, authority: Authority) -> OpList {
    OpList {
        ops: vec![
            Op::CriticalSection(true),
            Op::AddEntity(entity_id),
            Op::AddComponent(entity_id, 1, vec![1, 2, 3]),
            Op::AuthorityChange(entity_id, 1, authority),
            Op::CriticalSection(false),
        ],
    }
}

#[test]
fn single_entity_admit() {
    let mut world = World::new(demo_schema());
    let events = world.process_op_list(admit_entity_ops(42, Authority::Authoritative));
    assert!(events.is_empty());
    assert!(world.has_entity(42));
    assert_eq!(world.get_component_field(42, 1, 0), Some(1));
    assert_eq!(world.get_component_field(42, 1, 1), Some(2));
    assert_eq!(world.get_component_field(42, 1, 2), Some(3));
    // signature is exactly {1}
    assert_eq!(world.get_component_field(42, 2, 0), None);
    assert_eq!(world.get_authority(42, 1), Some(Authority::Authoritative));
    // a writable reference: the authority-gated write succeeds
    assert!(world.set_component_field(42, 1, 0, 9));
    assert_eq!(world.get_component_field(42, 1, 0), Some(9));
}

#[test]
fn modified_only_visibility_lasts_one_tick() {
    let mut world = World::new(demo_schema());
    let system = world.register_system();
    let t0 = world.system_last_update(system);
    let _ = world.process_op_list(admit_entity_ops(42, Authority::Authoritative));
    let mut sig = world.new_bit_field();
    {
        let schema = demo_schema();
        assert!(sig.add_component(&schema, 1));
    }
    // a system whose last run was t0 sees the new entity
    let seen = world.iterate_modified(&sig, 1, t0);
    assert_eq!(seen.len(), 1);
    assert_eq!(seen[0].0, 42);
    // the next tick, with no further ops, the system sees nothing
    world.mark_system_updated(system);
    let t1 = world.system_last_update(system);
    assert!(t1.occured_after(&t0));
    let seen_later = world.iterate_modified(&sig, 1, t1);
    assert!(seen_later.is_empty());
}

#[test]
fn local_mutation_replicates_exactly_once() {
    let mut world = World::new(demo_schema());
    let _ = world.process_op_list(admit_entity_ops(42, Authority::Authoritative));
    // admission itself owes the fabric nothing
    world.replicate_all();
    assert!(world.take_outbox().is_empty());
    assert!(world.set_component_field(42, 1, 0, 9));
    world.replicate_all();
    let sent = world.take_outbox();
    assert_eq!(sent.len(), 1);
    match &sent[0] {
        OutgoingMessage::ComponentUpdate { entity_id, component_id, update } => {
            assert_eq!(*entity_id, 42);
            assert_eq!(*component_id, 1);
            assert_eq!(update.get_field(0), Some(9));
            assert_eq!(update.get_field(1), None);
            assert_eq!(update.get_field(2), None);
        },
        _ => panic!("expected a component update"),
    }
    // no further updates until another mutation
    world.replicate_all();
    assert!(world.take_outbox().is_empty());
}

#[test]
fn remove_with_swap_keeps_survivors_consistent() {
    let mut world = World::new(demo_schema());
    let mut ops = vec![Op::CriticalSection(true)];
    for id in [1i64, 2, 3] {
        ops.push(Op::AddEntity(id));
        ops.push(Op::AddComponent(id, 1, vec![id, 0, 0]));
    }
    ops.push(Op::CriticalSection(false));
    let _ = world.process_op_list(OpList { ops });
    let _ = world.process_op_list(OpList { ops: vec![Op::RemoveEntity(2)] });
    let all = world.new_bit_field();
    let remaining = world.iterate(&all);
    assert_eq!(remaining.len(), 2);
    let mut ids: Vec<i64> = remaining.iter().map(|t| t.0).collect();
    ids.sort();
    assert_eq!(ids, vec![1, 3]);
    // the swapped survivor still resolves with its own data
    assert_eq!(world.get_component_field(3, 1, 0), Some(3));
    assert_eq!(world.get_component_field(1, 1, 0), Some(1));
    assert!(!world.has_entity(2));
    // further removals do not corrupt
    let _ = world.process_op_list(OpList { ops: vec![Op::RemoveEntity(2)] });
    let _ = world.process_op_list(OpList { ops: vec![Op::RemoveEntity(3)] });
    assert_eq!(world.iterate(&all).len(), 1);
    assert_eq!(world.get_component_field(1, 1, 0), Some(1));
}

#[test]
fn entity_set_is_adds_minus_removes() {
    let mut world = World::new(demo_schema());
    let ops = vec![
        Op::CriticalSection(true),
        Op::AddEntity(10),
        Op::AddComponent(10, 1, vec![0, 0, 0]),
        Op::AddEntity(11),
        Op::AddComponent(11, 2, vec![5]),
        Op::CriticalSection(false),
        Op::RemoveEntity(10),
    ];
    let _ = world.process_op_list(OpList { ops });
    assert!(!world.has_entity(10));
    assert!(world.has_entity(11));
    assert_eq!(world.get_component_field(11, 2, 0), Some(5));
}

#[test]
fn signature_is_accepted_component_additions() {
    let mut world = World::new(demo_schema());
    let ops = vec![
        Op::CriticalSection(true),
        Op::AddEntity(7),
        Op::AddComponent(7, 1, vec![1, 2, 3]),
        Op::AddComponent(7, 2, vec![4]),
        // unknown component: dropped
        Op::AddComponent(7, 99, vec![0]),
        // ill-shaped snapshot: dropped
        Op::AddComponent(7, 2, vec![1, 2, 3, 4]),
        Op::CriticalSection(false),
    ];
    let _ = world.process_op_list(OpList { ops });
    assert_eq!(world.get_component_field(7, 1, 0), Some(1));
    assert_eq!(world.get_component_field(7, 2, 0), Some(4));
    assert_eq!(world.get_component_field(7, 99, 0), None);
}

#[test]
fn updates_in_and_out_of_critical_sections() {
    let mut world = World::new(demo_schema());
    let mut update = spatialos_gdk::data::ComponentUpdate::new_empty(3, 1);
    update.set_field(0, 100);
    let ops = vec![
        Op::CriticalSection(true),
        Op::AddEntity(42),
        Op::AddComponent(42, 1, vec![1, 2, 3]),
        // an update inside the critical section lands in the accumulator
        Op::ComponentUpdate(42, 1, update),
        Op::CriticalSection(false),
    ];
    let _ = world.process_op_list(OpList { ops });
    assert_eq!(world.get_component_field(42, 1, 0), Some(100));
    // an update outside the critical section lands in the store
    let mut update2 = spatialos_gdk::data::ComponentUpdate::new_empty(3, 1);
    update2.set_field(2, 55);
    let _ = world.process_op_list(
        OpList { ops: vec![Op::ComponentUpdate(42, 1, update2)] },
    );
    assert_eq!(world.get_component_field(42, 1, 0), Some(100));
    assert_eq!(world.get_component_field(42, 1, 2), Some(55));
}

#[test]
fn received_events_last_one_tick() {
    let mut world = World::new(demo_schema());
    let _ = world.process_op_list(admit_entity_ops(42, Authority::Authoritative));
    let mut update = spatialos_gdk::data::ComponentUpdate::new_empty(3, 1);
    update.add_event(0, 13);
    update.add_event(0, 14);
    let _ = world.process_op_list(OpList { ops: vec![Op::ComponentUpdate(42, 1, update)] });
    assert_eq!(world.get_received_events(42, 1, 0), Some(&vec![13i64, 14]));
    world.cleanup_after_frame();
    assert_eq!(world.get_received_events(42, 1, 0), Some(&Vec::<i64>::new()));
}

#[test]
fn triggered_events_replicate_and_clear() {
    let mut world = World::new(demo_schema());
    let _ = world.process_op_list(admit_entity_ops(42, Authority::Authoritative));
    assert!(world.trigger_component_event(42, 1, 0, 5));
    world.replicate_all();
    let sent = world.take_outbox();
    assert_eq!(sent.len(), 1);
    match &sent[0] {
        OutgoingMessage::ComponentUpdate { update, .. } => {
            assert_eq!(update.get_events(0), &vec![5i64]);
        },
        _ => panic!("expected a component update"),
    }
    // staged events go out exactly once
    world.replicate_all();
    assert!(world.take_outbox().is_empty());
}

#[test]
fn authority_gated_write_changes_nothing() {
    let mut world = World::new(demo_schema());
    let _ = world.process_op_list(admit_entity_ops(100, Authority::NotAuthoritative));
    assert_eq!(world.get_authority(100, 1), Some(Authority::NotAuthoritative));
    // the mutable access is refused
    assert!(!world.set_component_field(100, 1, 0, 9));
    assert_eq!(world.get_component_field(100, 1, 0), Some(1));
    // no dirty flag was set: nothing replicates
    world.replicate_all();
    assert!(world.take_outbox().is_empty());
}

#[test]
fn parallel_iteration_matches_sequential() {
    let mut world = World::new(demo_schema());
    let mut ops = vec![Op::CriticalSection(true)];
    for id in [1i64, 2, 3, 4] {
        ops.push(Op::AddEntity(id));
        ops.push(Op::AddComponent(id, 1, vec![id, 0, 0]));
    }
    for id in [5i64, 6] {
        ops.push(Op::AddEntity(id));
        ops.push(Op::AddComponent(id, 2, vec![id]));
    }
    ops.push(Op::CriticalSection(false));
    let _ = world.process_op_list(OpList { ops });
    let all = world.new_bit_field();
    let sequential = world.iterate(&all);
    assert_eq!(sequential.len(), 6);
    // no entity appears twice
    let mut ids: Vec<i64> = sequential.iter().map(|t| t.0).collect();
    ids.sort();
    let mut expected = vec![1i64, 2, 3, 4, 5, 6];
    expected.sort();
    assert_eq!(ids, expected);
    // the parallel grouping flattens to the sequential order
    let groups = world.par_iterate(&all);
    let flattened: Vec<(i64, usize, usize)> =
        groups.iter().flat_map(|g| g.iter().copied()).collect();
    assert_eq!(flattened, sequential);
    // a narrower group signature selects the matching chunks only
    let mut sig = world.new_bit_field();
    {
        let schema = demo_schema();
        assert!(sig.add_component(&schema, 2));
    }
    let narrowed = world.iterate(&sig);
    let mut narrowed_ids: Vec<i64> = narrowed.iter().map(|t| t.0).collect();
    narrowed_ids.sort();
    assert_eq!(narrowed_ids, vec![5, 6]);
}

#[test]
fn command_round_trip() {
    let mut world = World::new(demo_schema());
    let _ = world.process_op_list(admit_entity_ops(42, Authority::Authoritative));
    assert!(world.register_command_handler(1, 0));
    let events = world.process_op_list(
        OpList { ops: vec![Op::CommandRequest(7, 42, 1, 0, vec![1])] },
    );
    assert_eq!(events.len(), 1);
    match &events[0] {
        WorldEvent::HandlerInvocation {
            request_id,
            entity_id,
            component_id,
            command_index,
            payload,
        } => {
            assert_eq!(*request_id, 7);
            assert_eq!(*entity_id, 42);
            assert_eq!(*component_id, 1);
            assert_eq!(*command_index, 0);
            assert_eq!(payload, &vec![1i64]);
            // the handler answers; the driver sends the response back
            world.send_command_response(*request_id, *component_id, vec![5]);
        },
        _ => panic!("expected a handler invocation"),
    }
    let sent = world.take_outbox();
    assert_eq!(sent.len(), 1);
    match &sent[0] {
        OutgoingMessage::CommandResponse { request_id, component_id, payload } => {
            assert_eq!(*request_id, 7);
            assert_eq!(*component_id, 1);
            assert_eq!(payload, &vec![5i64]);
        },
        _ => panic!("expected a command response"),
    }
    // a request without a registered handler is dropped
    let unhandled = world.process_op_list(
        OpList { ops: vec![Op::CommandRequest(8, 42, 1, 3, vec![1])] },
    );
    assert!(unhandled.is_empty());
}

#[test]
fn duplicate_handler_registration_is_refused() {
    let mut world = World::new(demo_schema());
    assert!(world.register_command_handler(1, 0));
    assert!(!world.register_command_handler(1, 0));
    assert!(world.register_command_handler(1, 1));
    assert!(world.register_command_handler(2, 0));
}

#[test]
fn sent_commands_resolve_exactly_once() {
    let mut world = World::new(demo_schema());
    let rid = world.send_command(42, 1, 0, vec![9], None);
    let sent = world.take_outbox();
    assert_eq!(sent.len(), 1);
    assert!(matches!(
        &sent[0],
        OutgoingMessage::CommandRequest { request_id, .. } if *request_id == rid
    ));
    let first = world.on_command_response(
        rid,
        42,
        Some(vec![10]),
        CommandStatus::Success,
        String::from("ok"),
    );
    match first {
        Some(WorldEvent::CommandSuccess { request_id, entity_id, payload }) => {
            assert_eq!(request_id, rid);
            assert_eq!(entity_id, 42);
            assert_eq!(payload, Some(vec![10i64]));
        },
        _ => panic!("expected a success callback"),
    }
    // a duplicate delivery fires nothing
    let second = world.on_command_response(
        rid,
        42,
        Some(vec![10]),
        CommandStatus::Success,
        String::from("ok"),
    );
    assert!(second.is_none());
    // a failure status fires the failure callback
    let rid2 = world.send_command(42, 1, 0, vec![9], Some(100));
    let failed = world.on_command_response(rid2, 42, None, CommandStatus::Timeout, String::from("late"));
    assert!(matches!(
        failed,
        Some(WorldEvent::CommandFailure { status: CommandStatus::Timeout, .. })
    ));
}

#[test]
fn entity_creation_and_deletion_requests_resolve() {
    let mut world = World::new(demo_schema());
    let template = EntityTemplate::new(vec![Worker::Type("client"), Worker::Nobody])
        .set_entity_id(500)
        .with_component(Worker::Type("server"), 1, vec![1, 2, 3]);
    let rid = world.create_entity(template);
    let outcome = world.on_create_entity_response(
        rid,
        500,
        CommandStatus::Success,
        String::from("ok"),
    );
    assert!(matches!(
        outcome,
        Some(WorldEvent::CreateEntitySuccess { entity_id: 500, .. })
    ));
    assert!(world.on_create_entity_response(rid, 500, CommandStatus::Success, String::from("ok")).is_none());
    let rid2 = world.delete_entity(500);
    let deleted = world.on_delete_entity_response(
        rid2,
        500,
        CommandStatus::ApplicationError,
        String::from("denied"),
    );
    assert!(matches!(
        deleted,
        Some(WorldEvent::DeleteEntityFailure { status: CommandStatus::ApplicationError, .. })
    ));
}

#[test]
fn authority_change_outside_critical_section() {
    let mut world = World::new(demo_schema());
    let _ = world.process_op_list(admit_entity_ops(42, Authority::NotAuthoritative));
    assert!(!world.set_component_field(42, 1, 0, 9));
    let _ = world.process_op_list(
        OpList { ops: vec![Op::AuthorityChange(42, 1, Authority::Authoritative)] },
    );
    assert_eq!(world.get_authority(42, 1), Some(Authority::Authoritative));
    assert!(world.set_component_field(42, 1, 0, 9));
}

#[test]
fn empty_signature_entities_are_admitted() {
    let mut world = World::new(demo_schema());
    let ops = vec![
        Op::CriticalSection(true),
        Op::AddEntity(5),
        Op::CriticalSection(false),
    ];
    let _ = world.process_op_list(OpList { ops });
    assert!(world.has_entity(5));
    assert_eq!(world.get_component_field(5, 1, 0), None);
    let all = world.new_bit_field();
    assert_eq!(world.iterate(&all).len(), 1);
}

#[test]
fn a_full_chunk_overflows_into_a_fresh_one() {
    let mut world = World::new(demo_schema());
    let mut ops = vec![Op::CriticalSection(true)];
    // one more entity than a chunk holds
    for id in 0..1025i64 {
        ops.push(Op::AddEntity(id));
        ops.push(Op::AddComponent(id, 2, vec![id]));
    }
    ops.push(Op::CriticalSection(false));
    let _ = world.process_op_list(OpList { ops });
    let all = world.new_bit_field();
    let triples = world.iterate(&all);
    assert_eq!(triples.len(), 1025);
    // the overflow entity sits in a second chunk
    assert!(triples.iter().any(|t| t.1 == 1));
    for id in [0i64, 511, 1023, 1024] {
        assert_eq!(world.get_component_field(id, 2, 0), Some(id));
    }
    // removal still keeps every survivor resolvable
    let _ = world.process_op_list(OpList { ops: vec![Op::RemoveEntity(512)] });
    assert_eq!(world.iterate(&all).len(), 1024);
    assert_eq!(world.get_component_field(1023, 2, 0), Some(1023));
}

#[test]
fn remove_component_clears_the_bit_and_keeps_the_rest() {
    let mut world = World::new(demo_schema());
    let ops = vec![
        Op::CriticalSection(true),
        Op::AddEntity(42),
        Op::AddComponent(42, 1, vec![1, 2, 3]),
        Op::AddComponent(42, 2, vec![7]),
        Op::AuthorityChange(42, 1, Authority::Authoritative),
        Op::CriticalSection(false),
        // the entity migrates to a chunk without component 2
        Op::RemoveComponent(42, 2),
    ];
    let _ = world.process_op_list(OpList { ops });
    assert!(world.has_entity(42));
    assert_eq!(world.get_component_field(42, 2, 0), None);
    assert_eq!(world.get_component_field(42, 1, 0), Some(1));
    assert_eq!(world.get_authority(42, 1), Some(Authority::Authoritative));
    // the kept component is still writable and replicates
    assert!(world.set_component_field(42, 1, 0, 9));
    world.replicate_all();
    let sent = world.take_outbox();
    assert_eq!(sent.len(), 1);
    assert!(matches!(
        &sent[0],
        OutgoingMessage::ComponentUpdate { entity_id: 42, component_id: 1, .. }
    ));
    // removing an absent component changes nothing
    let _ = world.process_op_list(OpList { ops: vec![Op::RemoveComponent(42, 2)] });
    assert_eq!(world.get_component_field(42, 1, 0), Some(9));
}

#[test]
fn remove_component_inside_a_critical_section() {
    let mut world = World::new(demo_schema());
    let ops = vec![
        Op::CriticalSection(true),
        Op::AddEntity(7),
        Op::AddComponent(7, 1, vec![1, 2, 3]),
        Op::AddComponent(7, 2, vec![5]),
        // withdrawn before the section closes: never admitted with it
        Op::RemoveComponent(7, 2),
        Op::CriticalSection(false),
    ];
    let _ = world.process_op_list(OpList { ops });
    assert!(world.has_entity(7));
    assert_eq!(world.get_component_field(7, 1, 0), Some(1));
    assert_eq!(world.get_component_field(7, 2, 0), None);
}

#[test]
fn remove_component_keeps_pending_local_state() {
    let mut world = World::new(demo_schema());
    let ops = vec![
        Op::CriticalSection(true),
        Op::AddEntity(9),
        Op::AddComponent(9, 1, vec![1, 2, 3]),
        Op::AddComponent(9, 2, vec![5]),
        Op::AuthorityChange(9, 1, Authority::Authoritative),
        Op::CriticalSection(false),
    ];
    let _ = world.process_op_list(OpList { ops });
    // a pending local mutation survives the migration
    assert!(world.set_component_field(9, 1, 0, 77));
    let _ = world.process_op_list(OpList { ops: vec![Op::RemoveComponent(9, 2)] });
    world.replicate_all();
    let sent = world.take_outbox();
    assert_eq!(sent.len(), 1);
    match &sent[0] {
        OutgoingMessage::ComponentUpdate { entity_id, component_id, update } => {
            assert_eq!(*entity_id, 9);
            assert_eq!(*component_id, 1);
            assert_eq!(update.get_field(0), Some(77));
        },
        _ => panic!("expected a component update"),
    }
}
