use spatialos_gdk::codegen::snake_to_title_case;
use spatialos_gdk::codegen::to_rust_qualified_name;
use spatialos_gdk::codegen::BuiltInType;
use spatialos_gdk::codegen::ComponentDefinition;
use spatialos_gdk::codegen::JsonCollection;
use spatialos_gdk::codegen::SchemaTypeDefinition;
use spatialos_gdk::codegen::TypeDefinition;
use spatialos_gdk::data::ComponentData;
use spatialos_gdk::data::ComponentUpdate;
use spatialos_gdk::data::Property;
use spatialos_gdk::schema::ComponentDescriptor;
use spatialos_gdk::template::Worker;
use spatialos_gdk::schema::Schema;
use spatialos_gdk::world::WorldTime;

#[test]
fn world_time_starts_at_zero_and_advances() {
    let mut clock = WorldTime::new();
    let t0 = clock.get_time();
    let t1 = clock.get_time();
    assert!(t1.occured_after(&t0));
    assert!(!t0.occured_after(&t1));
    assert!(t1.max_time(&t0).occured_after(&t0));
}

#[test]
fn property_dirty_bit_tracks_mutation() {
    let mut p = Property::new(7);
    assert_eq!(p.get(), 7);
    assert!(!p.get_dirty_bit());
    p.set(9);
    assert_eq!(p.get(), 9);
    assert!(p.get_dirty_bit());
    assert!(p.get_and_clear_dirty_bit());
    assert!(!p.get_dirty_bit());
    assert!(!p.get_and_clear_dirty_bit());
}

#[test]
fn schema_rejects_duplicate_component_ids() {
    let good = Schema::new(vec![
        ComponentDescriptor::new(1, 3, 1),
        ComponentDescriptor::new(2, 1, 0),
    ]);
    assert!(good.is_some());
    let bad = Schema::new(vec![
        ComponentDescriptor::new(1, 3, 1),
        ComponentDescriptor::new(1, 1, 0),
    ]);
    assert!(bad.is_none());
}

#[test]
fn bit_field_set_subset_and_equality() {
    let schema = Schema::new(vec![
        ComponentDescriptor::new(1, 3, 1),
        ComponentDescriptor::new(2, 1, 0),
    ])
    .unwrap();
    let mut a = schema.new_bit_field();
    let mut b = schema.new_bit_field();
    assert!(a.add_component(&schema, 1));
    assert!(a.add_component(&schema, 2));
    assert!(b.add_component(&schema, 2));
    // unknown components set no bit
    assert!(!b.add_component(&schema, 99));
    assert!(a.is_subset(&b));
    assert!(!b.is_subset(&a));
    assert!(!a.equals(&b));
    assert!(b.add_component(&schema, 1));
    assert!(a.equals(&b));
}

#[test]
fn data_snapshot_round_trip() {
    let values = vec![4i64, 5, 6];
    let d = ComponentData::deserialise_data(&values, 2);
    assert_eq!(d.num_fields(), 3);
    assert_eq!(d.num_events(), 2);
    assert_eq!(d.get_field(1), 5);
    let snapshot = d.serialise_data();
    assert_eq!(snapshot, values);
    let d2 = ComponentData::deserialise_data(&snapshot, 2);
    assert_eq!(d2.serialise_data(), values);
}

#[test]
fn update_apply_merges_fields_and_appends_events() {
    let mut d = ComponentData::deserialise_data(&vec![1i64, 2], 1);
    let mut u = ComponentUpdate::new_empty(2, 1);
    u.set_field(1, 42);
    u.add_event(0, 77);
    assert!(u.contains_events());
    d.apply_update(&u);
    assert_eq!(d.get_field(0), 1);
    assert_eq!(d.get_field(1), 42);
    // a field overwritten by the fabric is not locally dirty
    let mut d2 = d;
    let outbound = d2.take_update();
    assert_eq!(outbound.get_field(0), None);
    assert_eq!(outbound.get_field(1), None);
}

#[test]
fn local_mutation_drains_into_update_once() {
    let mut d = ComponentData::new(2, 1);
    d.set_field(0, 9);
    d.trigger_event(0, 3);
    let u = d.take_update();
    assert_eq!(u.get_field(0), Some(9));
    assert_eq!(u.get_field(1), None);
    assert_eq!(u.get_events(0), &vec![3i64]);
    let u2 = d.take_update();
    assert_eq!(u2.get_field(0), None);
    assert_eq!(u2.get_events(0), &Vec::<i64>::new());
}

#[test]
fn snake_to_title_case_capitalises_words() {
    let s = String::from("example_command");
    assert_eq!(snake_to_title_case(&s), "ExampleCommand");
    assert_eq!(snake_to_title_case(&String::from("x")), "X");
    assert_eq!(snake_to_title_case(&String::from("already")), "Already");
}

#[test]
fn to_rust_qualified_name_nests_namespaces() {
    let s = String::from("improbable.Position");
    assert_eq!(to_rust_qualified_name(&s), "::schema::improbable::Position");
}

#[test]
fn built_in_type_mappings() {
    let b = BuiltInType::from_schema_name(&String::from("uint32")).unwrap();
    assert_eq!(b.rust_type_name(), "u32");
    assert_eq!(b.type_method_group(), "Uint32");
    let f = BuiltInType::from_schema_name(&String::from("float")).unwrap();
    assert_eq!(f.rust_type_name(), "f32");
    let bytes = BuiltInType::from_schema_name(&String::from("bytes")).unwrap();
    assert_eq!(bytes.type_method_group(), "BytesVec");
    assert!(BuiltInType::from_schema_name(&String::from("quaternion")).is_none());
}

#[test]
fn json_collection_append_keeps_order() {
    let mut a = JsonCollection::new();
    let b = JsonCollection::new();
    a.append(b);
    assert_eq!(a.typeDefinitions.len(), 0);
    assert_eq!(a.componentDefinitions.len(), 0);
}

#[test]
fn worker_constraints_map_to_attribute_strings() {
    assert_eq!(
        Worker::Type("physics").get_attribute_string(),
        Some(String::from("physics"))
    );
    assert_eq!(
        Worker::Specific("ClientWorker12345").get_attribute_string(),
        Some(String::from("workerId:ClientWorker12345"))
    );
    assert_eq!(Worker::Nobody.get_attribute_string(), None);
}

#[test]
fn schema_links_from_a_parsed_collection() {
    let mut collection = JsonCollection::new();
    collection.typeDefinitions.push(TypeDefinition {
        fieldDefinitions: vec![
            field("x", 1),
            field("y", 2),
            field("z", 3),
        ],
        name: String::from("PositionData"),
        qualifiedName: String::from("demo.PositionData"),
    });
    collection.componentDefinitions.push(ComponentDefinition {
        id: 1,
        name: String::from("Position"),
        qualifiedName: String::from("demo.Position"),
        dataDefinition: SchemaTypeDefinition {
            builtInType: None,
            userType: Some(String::from("demo.PositionData")),
        },
        eventDefinitions: vec![],
        commandDefinitions: vec![],
    });
    let schema = Schema::from_collection(&collection).unwrap();
    assert_eq!(schema.num_components(), 1);
    let descriptor = schema.descriptor_at(0);
    assert_eq!(descriptor.component_id(), 1);
    assert_eq!(descriptor.num_fields(), 3);
    assert_eq!(descriptor.num_events(), 0);
    // an unresolvable data type is a wiring bug
    collection.componentDefinitions.push(ComponentDefinition {
        id: 2,
        name: String::from("Score"),
        qualifiedName: String::from("demo.Score"),
        dataDefinition: SchemaTypeDefinition {
            builtInType: None,
            userType: Some(String::from("demo.Missing")),
        },
        eventDefinitions: vec![],
        commandDefinitions: vec![],
    });
    assert!(Schema::from_collection(&collection).is_none());
}

fn field(name: &str, number: u32) -> spatialos_gdk::codegen::FieldDefinition {
    spatialos_gdk::codegen::FieldDefinition {
        name: String::from(name),
        number,
        singularType: Some(spatialos_gdk::codegen::SchemaTypeDefinition {
            builtInType: Some(String::from("double")),
            userType: None,
        }),
        optionType: None,
        listType: None,
        mapType: None,
    }
}
