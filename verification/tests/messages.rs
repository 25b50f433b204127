use reachpy::decode::ReadFailure;
use reachpy::encode::write_by_type;
use reachpy::error::{CallError, ExceptionKind, MessageError};
use reachpy::field_type::FieldType;
use reachpy::registry::SchemaRegistry;
use reachpy::schema::SchemaItem;
use reachpy::value::{Decoded, FloatValue, IntValue, Value};

fn item(name: &str, tname: &str) -> SchemaItem {
    SchemaItem::Sequence(vec![Ok(name.to_string()), Ok(tname.to_string())])
}

fn int_value(x: i128) -> Value {
    Value::Int(IntValue { exact: Some(x), as_float: Some(FloatValue { f64_bits: (x as f64).to_bits(), f32_bits: (x as f32).to_bits() }) })
}

fn float(x: f64) -> Value {
    Value::Float(FloatValue { f64_bits: x.to_bits(), f32_bits: (x as f32).to_bits() })
}

fn dict(entries: Vec<(&str, Value)>) -> Vec<(String, Value)> {
    entries.into_iter().map(|(k, v)| (k.to_string(), v)).collect()
}

fn waypoint_registry() -> SchemaRegistry {
    let mut reg = SchemaRegistry::new();
    reg.register_schema(
        "RobotWaypoint",
        &vec![item("x", "float64"), item("y", "float64"), item("is_active", "bool")],
    )
    .unwrap();
    reg
}

fn message_text(e: &MessageError) -> String {
    e.message()
}

#[test]
fn waypoint_serializes_to_aligned_little_endian_cdr() {
    let reg = waypoint_registry();
    let values = dict(vec![("x", float(15.2)), ("y", float(-7.8)), ("is_active", Value::Bool(true))]);
    let bytes = reg.serialize("RobotWaypoint", &values).unwrap();
    let mut expected = vec![0x00, 0x01, 0x00, 0x00];
    // alignment counts from the first byte after the header, so the first
    // float64 needs no padding
    expected.extend_from_slice(&15.2f64.to_le_bytes());
    expected.extend_from_slice(&(-7.8f64).to_le_bytes());
    expected.push(1);
    assert_eq!(bytes, expected);
}

#[test]
fn waypoint_roundtrips() {
    let reg = waypoint_registry();
    let values = dict(vec![("x", float(15.2)), ("y", float(-7.8)), ("is_active", Value::Bool(true))]);
    let bytes = reg.serialize("RobotWaypoint", &values).unwrap();
    let decoded = reg.deserialize("RobotWaypoint", &bytes).ok().unwrap();
    assert_eq!(decoded.len(), 3);
    assert_eq!(decoded[0].0, "x");
    assert!(matches!(decoded[0].1, Decoded::Float64(b) if b == 15.2f64.to_bits()));
    assert!(matches!(decoded[1].1, Decoded::Float64(b) if b == (-7.8f64).to_bits()));
    assert!(matches!(decoded[2].1, Decoded::Bool(true)));
}

#[test]
fn integers_strings_bytes_arrays_and_time_roundtrip() {
    let mut reg = SchemaRegistry::new();
    reg.register_schema("Stamp", &vec![item("t", "time"), item("label", "string")]).unwrap();
    reg.register_schema(
        "Everything",
        &vec![
            item("a", "int8"),
            item("b", "int16"),
            item("c", "int32"),
            item("d", "int64"),
            item("e", "uint8"),
            item("f", "uint16"),
            item("g", "uint32"),
            item("h", "uint64"),
            item("s", "string"),
            item("raw", "bytes"),
            item("list", "array<int32>"),
            item("nested", "struct:Stamp"),
            item("f32", "float32"),
        ],
    )
    .unwrap();
    let stamp = Value::Dict(dict(vec![
        ("t", Value::Dict(dict(vec![("sec", int_value(-5)), ("nanosec", int_value(4_000_000_000))]))),
        ("label", Value::Str("héllo".to_string())),
    ]));
    let values = dict(vec![
        ("a", int_value(-128)),
        ("b", int_value(-2)),
        ("c", int_value(123456)),
        ("d", int_value(-9_000_000_000)),
        ("e", int_value(255)),
        ("f", int_value(65535)),
        ("g", int_value(4_294_967_295)),
        ("h", int_value(18_446_744_073_709_551_615)),
        ("s", Value::Str("abc".to_string())),
        ("raw", Value::Bytes(vec![9, 8, 7])),
        ("list", Value::List(vec![int_value(1), int_value(-1), int_value(7)])),
        ("nested", stamp),
        ("f32", float(1.5)),
    ]);
    let bytes = reg.serialize("Everything", &values).unwrap();
    let d = reg.deserialize("Everything", &bytes).ok().unwrap();
    let get = |k: &str| d.iter().find(|(n, _)| n == k).map(|(_, v)| v).unwrap();
    assert!(matches!(get("a"), Decoded::Int(-128)));
    assert!(matches!(get("b"), Decoded::Int(-2)));
    assert!(matches!(get("c"), Decoded::Int(123456)));
    assert!(matches!(get("d"), Decoded::Int(-9_000_000_000)));
    assert!(matches!(get("e"), Decoded::Int(255)));
    assert!(matches!(get("f"), Decoded::Int(65535)));
    assert!(matches!(get("g"), Decoded::Int(4_294_967_295)));
    assert!(matches!(get("h"), Decoded::Int(18_446_744_073_709_551_615)));
    assert!(matches!(get("s"), Decoded::Str(s) if s == "abc"));
    assert!(matches!(get("raw"), Decoded::Bytes(b) if *b == vec![9, 8, 7]));
    match get("list") {
        Decoded::List(items) => {
            assert_eq!(items.len(), 3);
            assert!(matches!(items[1], Decoded::Int(-1)));
        }
        _ => panic!("expected a list"),
    }
    match get("nested") {
        Decoded::Dict(entries) => {
            assert_eq!(entries[0].0, "t");
            match &entries[0].1 {
                Decoded::Dict(t) => {
                    assert_eq!(t[0].0, "sec");
                    assert!(matches!(t[0].1, Decoded::Int(-5)));
                    assert_eq!(t[1].0, "nanosec");
                    assert!(matches!(t[1].1, Decoded::Int(4_000_000_000)));
                }
                _ => panic!("expected a time"),
            }
            assert!(matches!(&entries[1].1, Decoded::Str(s) if s == "héllo"));
        }
        _ => panic!("expected a structure"),
    }
    assert!(matches!(get("f32"), Decoded::Float32(b) if *b == 1.5f32.to_bits()));
}

#[test]
fn string_is_length_prefixed_and_nul_terminated() {
    let mut reg = SchemaRegistry::new();
    reg.register_schema("S", &vec![item("flag", "bool"), item("s", "string")]).unwrap();
    let bytes = reg.serialize("S", &dict(vec![("flag", Value::Bool(false)), ("s", Value::Str("hi".to_string()))])).unwrap();
    assert_eq!(bytes, vec![0, 1, 0, 0, 0, 0, 0, 0, 3, 0, 0, 0, b'h', b'i', 0]);
}

#[test]
fn type_mismatch_names_field_expected_and_got() {
    let reg = waypoint_registry();
    let values = dict(vec![("x", Value::Str("no".to_string())), ("y", float(1.0)), ("is_active", Value::Bool(true))]);
    let err = reg.serialize("RobotWaypoint", &values).err().unwrap();
    assert_eq!(message_text(&err), "Field type mismatch on 'x': expected float64, got string");
    let (kind, text) = err.to_exception();
    assert_eq!(kind, ExceptionKind::TypeError);
    assert_eq!(text, "Field type mismatch on 'x': expected float64, got string");
}

#[test]
fn out_of_range_integer_is_a_mismatch() {
    let mut reg = SchemaRegistry::new();
    reg.register_schema("B", &vec![item("v", "uint8")]).unwrap();
    let err = reg.serialize("B", &dict(vec![("v", int_value(256))])).err().unwrap();
    assert_eq!(message_text(&err), "Field type mismatch on 'v': expected uint8, got int");
    let err = reg.serialize("B", &dict(vec![("v", int_value(-1))])).err().unwrap();
    assert_eq!(message_text(&err), "Field type mismatch on 'v': expected uint8, got int");
}

#[test]
fn bool_counts_as_integer_and_float() {
    let mut reg = SchemaRegistry::new();
    reg.register_schema("B", &vec![item("i", "int16"), item("f", "float32")]).unwrap();
    let bytes = reg.serialize("B", &dict(vec![("i", Value::Bool(true)), ("f", Value::Bool(true))])).unwrap();
    let mut expected = vec![0, 1, 0, 0, 1, 0, 0, 0];
    expected.extend_from_slice(&1.0f32.to_le_bytes());
    assert_eq!(bytes, expected);
}

#[test]
fn missing_fields_are_serialization_errors() {
    let mut reg = SchemaRegistry::new();
    reg.register_schema("Inner", &vec![item("z", "int8")]).unwrap();
    reg.register_schema("Outer", &vec![item("inner", "struct:Inner")]).unwrap();
    let err = reg.serialize("Outer", &dict(vec![])).err().unwrap();
    assert_eq!(message_text(&err), "Serialization failed: Missing field 'inner'");
    let err = reg.serialize("Outer", &dict(vec![("inner", Value::Dict(vec![]))])).err().unwrap();
    assert_eq!(message_text(&err), "Serialization failed: Missing nested field 'inner.z'");
}

#[test]
fn nested_mismatch_reports_top_level_field() {
    let mut reg = SchemaRegistry::new();
    reg.register_schema("Inner", &vec![item("z", "int8")]).unwrap();
    reg.register_schema("Outer", &vec![item("inner", "struct:Inner"), item("many", "array<int8>")]).unwrap();
    let err = reg
        .serialize("Outer", &dict(vec![("inner", Value::Dict(dict(vec![("z", Value::Str("q".into()))]))), ("many", Value::List(vec![]))]))
        .err()
        .unwrap();
    assert_eq!(message_text(&err), "Field type mismatch on 'inner': expected int8, got dict");
    let err = reg
        .serialize("Outer", &dict(vec![("inner", Value::Dict(dict(vec![("z", int_value(1))]))), ("many", Value::List(vec![int_value(1), Value::Other]))]))
        .err()
        .unwrap();
    assert_eq!(message_text(&err), "Field type mismatch on 'many': expected int8, got unknown");
    let err = reg
        .serialize("Outer", &dict(vec![("inner", Value::Dict(dict(vec![("z", int_value(1))]))), ("many", Value::Sequence)]))
        .err()
        .unwrap();
    assert_eq!(message_text(&err), "Field type mismatch on 'many': expected array<int8>, got list");
}

#[test]
fn unknown_schema_is_a_key_error() {
    let reg = SchemaRegistry::new();
    let err = reg.serialize("Nope", &vec![]).err().unwrap();
    assert_eq!(message_text(&err), "Unknown custom message schema: Nope");
    let (kind, text) = err.to_exception();
    assert_eq!(kind, ExceptionKind::KeyError);
    assert_eq!(text, "Nope");
}

#[test]
fn short_payload_is_refused() {
    let reg = waypoint_registry();
    match reg.deserialize("RobotWaypoint", &[0, 1, 0]) {
        Err(CallError::InvalidPayload(m)) => assert_eq!(m, "CDR payload too short (missing encapsulation header)"),
        _ => panic!("expected a refused payload"),
    }
}

#[test]
fn big_endian_payload_is_refused() {
    let reg = waypoint_registry();
    match reg.deserialize("RobotWaypoint", &[0, 0, 0xab, 0]) {
        Err(e @ CallError::InvalidPayload(_)) => {
            let (kind, text) = e.to_exception();
            assert_eq!(kind, ExceptionKind::ValueError);
            assert_eq!(text, "Unsupported CDR encapsulation [00, 00, ab, 00]. Only little-endian CDR is currently supported");
        }
        _ => panic!("expected a refused payload"),
    }
}

#[test]
fn truncated_payload_fails_to_fill() {
    let mut reg = SchemaRegistry::new();
    reg.register_schema("I", &vec![item("v", "int32")]).unwrap();
    match reg.deserialize("I", &[0, 1, 0, 0, 1, 2]) {
        Err(CallError::Message(e)) => assert_eq!(message_text(&e), "Deserialization failed: failed to fill whole buffer"),
        _ => panic!("expected an error"),
    }
    reg.register_schema("L", &vec![item("b", "bool"), item("v", "int64")]).unwrap();
    match reg.deserialize("L", &[0, 1, 0, 0, 1, 0]) {
        Err(CallError::Message(e)) => assert_eq!(message_text(&e), "Deserialization failed: Input truncated while aligning CDR stream"),
        _ => panic!("expected an error"),
    }
}

#[test]
fn string_without_terminator_is_refused() {
    let mut reg = SchemaRegistry::new();
    reg.register_schema("S", &vec![item("name", "string")]).unwrap();
    match reg.deserialize("S", &[0, 1, 0, 0, 2, 0, 0, 0, b'a', b'b']) {
        Err(CallError::Message(e)) => {
            assert_eq!(message_text(&e), "Deserialization failed: Invalid ROS string for 'name': missing NUL terminator")
        }
        _ => panic!("expected an error"),
    }
    match reg.deserialize("S", &[0, 1, 0, 0, 2, 0, 0, 0, 0xff, 0]) {
        Err(CallError::Message(MessageError::DeserializationError(m))) => {
            assert_eq!(m, String::from_utf8(vec![0xff]).unwrap_err().to_string())
        }
        _ => panic!("expected an error"),
    }
}

#[test]
fn self_containing_schema_never_ends() {
    let mut reg = SchemaRegistry::new();
    reg.register_schema("Loop", &vec![item("again", "struct:Loop")]).unwrap();
    assert!(reg.try_deserialize("Loop", &[0, 1, 0, 0]).is_none());
    reg.register_schema("Tree", &vec![item("children", "array<struct:Tree>")]).unwrap();
    match reg.try_deserialize("Tree", &[0, 1, 0, 0, 0, 0, 0, 0]) {
        Some(Ok(m)) => assert!(matches!(&m[0].1, Decoded::List(v) if v.is_empty())),
        _ => panic!("expected a message"),
    }
}

#[test]
fn duplicate_field_names_keep_one_entry() {
    let mut reg = SchemaRegistry::new();
    reg.register_schema("D", &vec![item("v", "uint8"), item("w", "uint8"), item("v", "uint8")]).unwrap();
    let d = reg.deserialize("D", &[0, 1, 0, 0, 1, 2, 3]).ok().unwrap();
    assert_eq!(d.len(), 2);
    assert_eq!(d[0].0, "v");
    assert!(matches!(d[0].1, Decoded::Int(3)));
    assert!(matches!(d[1].1, Decoded::Int(2)));
}

#[test]
fn read_failure_carries_errors() {
    let mut reg = SchemaRegistry::new();
    reg.register_schema("U", &vec![item("u", "struct:Missing")]).unwrap();
    match reg.try_deserialize("U", &[0, 1, 0, 0]) {
        Some(Err(CallError::Message(e))) => assert_eq!(message_text(&e), "Unknown custom message schema: Missing"),
        _ => panic!("expected an unknown schema"),
    }
    let _unused: Option<ReadFailure> = None;
}

#[test]
fn type_names_parse() {
    assert!(matches!(FieldType::from_name("array<array<uint8>>"), Ok(FieldType::Array(_))));
    assert!(matches!(FieldType::from_name("struct:  Pose \t"), Ok(FieldType::Struct(n)) if n == "Pose"));
    assert!(matches!(FieldType::from_name("ros_string"), Ok(FieldType::RosString)));
    assert!(matches!(FieldType::from_name("ros_bytes"), Ok(FieldType::RosBytes)));
    match FieldType::from_name("struct:   ") {
        Err(e) => assert_eq!(message_text(&e), "Schema definition error: Struct type must include a schema name"),
        _ => panic!("expected an error"),
    }
    match FieldType::from_name("array<quaternion>") {
        Err(e) => assert_eq!(message_text(&e), "Serialization failed: Unsupported field type 'quaternion'"),
        _ => panic!("expected an error"),
    }
    match FieldType::from_name("array<int8") {
        Err(e) => assert_eq!(message_text(&e), "Serialization failed: Unsupported field type 'array<int8'"),
        _ => panic!("expected an error"),
    }
}

#[test]
fn type_names_print_and_parse_back() {
    for name in ["bool", "int8", "uint64", "float32", "string", "bytes", "time", "duration", "array<struct:Pose>", "array<array<int16>>"] {
        let t = FieldType::from_name(name).ok().unwrap();
        assert_eq!(t.as_name(), name);
    }
    assert_eq!(FieldType::from_name("ros_string").ok().unwrap().as_name(), "string");
}

#[test]
fn registry_register_get_exists_unregister() {
    let mut reg = SchemaRegistry::new();
    assert!(!reg.schema_exists("Pose"));
    reg.register_schema("Pose", &vec![item("x", "float64"), item("frame", "ros_string")]).unwrap();
    assert!(reg.schema_exists("Pose"));
    let listing = reg.get_schema("Pose").unwrap();
    assert_eq!(listing, vec![("x".to_string(), "float64".to_string()), ("frame".to_string(), "string".to_string())]);
    let err = reg.register_schema("Pose", &vec![]).err().unwrap();
    assert_eq!(message_text(&err), "Schema already registered: Pose");
    assert_eq!(err.to_exception().0, ExceptionKind::ValueError);
    reg.unregister_schema("Pose").unwrap();
    assert!(!reg.schema_exists("Pose"));
    let err = reg.unregister_schema("Pose").err().unwrap();
    assert_eq!(message_text(&err), "Unknown custom message schema: Pose");
    assert!(reg.get_schema("Pose").is_err());
}

#[test]
fn malformed_definitions_are_refused_in_order() {
    let mut reg = SchemaRegistry::new();
    let err = reg.register_schema("X", &vec![SchemaItem::Sequence(vec![Ok("a".into())])]).err().unwrap();
    assert_eq!(message_text(&err), "Schema definition error: Each field entry must contain exactly 2 items");
    let err = reg.register_schema("X", &vec![item("a", "bool"), SchemaItem::Other]).err().unwrap();
    assert_eq!(message_text(&err), "Schema definition error: Fields must be provided as list[tuple[str, str]]");
    let err = reg
        .register_schema("X", &vec![SchemaItem::Sequence(vec![Ok("a".into()), Err("TypeError: bad".into())]), item("b", "nonsense")])
        .err()
        .unwrap();
    assert_eq!(message_text(&err), "Schema definition error: TypeError: bad");
    let err = reg.register_schema("X", &vec![item("b", "nonsense"), SchemaItem::Other]).err().unwrap();
    assert_eq!(message_text(&err), "Serialization failed: Unsupported field type 'nonsense'");
    assert!(!reg.schema_exists("X"));
}

#[test]
fn listing_registers_the_same_schema_again() {
    let mut reg = SchemaRegistry::new();
    reg.register_schema(
        "Pose",
        &vec![item("x", "float64"), item("frame", "ros_string"), item("tags", "array<struct:  Tag >"), item("stamp", "time")],
    )
    .unwrap();
    let listing = reg.get_schema("Pose").unwrap();
    let items: Vec<SchemaItem> = listing.iter().map(|(n, t)| item(n, t)).collect();
    reg.register_schema("PoseCopy", &items).unwrap();
    assert_eq!(reg.get_schema("PoseCopy").unwrap(), listing);
    assert_eq!(listing[2].1, "array<struct:Tag>");
}

#[test]
fn unregistering_a_new_schema_restores_the_registry() {
    let mut reg = waypoint_registry();
    reg.register_schema("Extra", &vec![item("n", "uint8")]).unwrap();
    reg.unregister_schema("Extra").unwrap();
    assert!(!reg.schema_exists("Extra"));
    assert!(reg.schema_exists("RobotWaypoint"));
    assert_eq!(
        reg.get_schema("RobotWaypoint").unwrap(),
        vec![("x".to_string(), "float64".to_string()), ("y".to_string(), "float64".to_string()), ("is_active".to_string(), "bool".to_string())]
    );
}

#[test]
fn standard_float64_payload_is_twelve_bytes_and_reads_back() {
    let mut reg = SchemaRegistry::new();
    reg.register_schema("F", &vec![item("data", "float64")]).unwrap();
    let bytes = reg.serialize("F", &dict(vec![("data", float(1.0))])).unwrap();
    assert_eq!(bytes, vec![0x00, 0x01, 0x00, 0x00, 0, 0, 0, 0, 0, 0, 0xF0, 0x3F]);
    let decoded = reg.deserialize("F", &bytes).ok().unwrap();
    assert!(matches!(decoded[0].1, Decoded::Float64(b) if b == 1.0f64.to_bits()));
}

#[test]
fn padding_counts_from_the_body() {
    let mut reg = SchemaRegistry::new();
    reg.register_schema("P", &vec![item("a", "uint8"), item("b", "uint32"), item("c", "float64")]).unwrap();
    let bytes = reg
        .serialize("P", &dict(vec![("a", int_value(7)), ("b", int_value(0x0102_0304)), ("c", float(2.0))]))
        .unwrap();
    let mut expected = vec![0x00, 0x01, 0x00, 0x00, 7, 0, 0, 0, 4, 3, 2, 1];
    expected.extend_from_slice(&2.0f64.to_le_bytes());
    assert_eq!(bytes, expected);
}

#[test]
fn trailing_bytes_are_ignored() {
    let reg = waypoint_registry();
    let values = dict(vec![("x", float(1.5)), ("y", float(2.5)), ("is_active", Value::Bool(false))]);
    let mut bytes = reg.serialize("RobotWaypoint", &values).unwrap();
    let short = reg.deserialize("RobotWaypoint", &bytes).ok().unwrap();
    bytes.extend_from_slice(&[0, 0, 0, 9, 9]);
    let long = reg.deserialize("RobotWaypoint", &bytes).ok().unwrap();
    assert_eq!(format!("{:?}", short), format!("{:?}", long));
}

#[test]
fn failed_write_leaves_only_padding() {
    let reg = SchemaRegistry::new();
    let mut buf = vec![0x00, 0x01, 0x00, 0x00];
    let err = write_by_type(&reg, &FieldType::Int8, &int_value(300), "n", "n", "int", &mut buf).err().unwrap();
    assert_eq!(message_text(&err), "Field type mismatch on 'n': expected int8, got int");
    assert_eq!(buf, vec![0x00, 0x01, 0x00, 0x00]);
    let mut buf = vec![9];
    let err = write_by_type(&reg, &FieldType::Float64, &Value::Str("x".into()), "f", "f", "string", &mut buf).err().unwrap();
    assert_eq!(message_text(&err), "Field type mismatch on 'f': expected float64, got string");
    assert_eq!(buf, vec![9, 0, 0, 0, 0, 0, 0, 0]);
}

#[test]
fn extra_keys_and_entry_order_leave_the_payload() {
    let reg = waypoint_registry();
    let plain = dict(vec![("x", float(1.5)), ("y", float(-2.0)), ("is_active", Value::Bool(true))]);
    let shuffled = dict(vec![
        ("note", Value::Str("ignored".into())),
        ("is_active", Value::Bool(true)),
        ("y", float(-2.0)),
        ("extra", int_value(3)),
        ("x", float(1.5)),
    ]);
    assert_eq!(reg.serialize("RobotWaypoint", &plain).unwrap(), reg.serialize("RobotWaypoint", &shuffled).unwrap());
}
