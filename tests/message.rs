use ironside::data::{CommandDefs, Dictionary, Registry, ResponseDefs};
use ironside::message::{decode_args, decode_response, encode_args, encode_command, FieldValue, MessageError};

fn registry() -> Registry {
    let d = Dictionary {
        build_versions: String::new(),
        version: String::new(),
        commands: CommandDefs(vec![
            ("queue_step oid=%c interval=%u count=%hu add=%hi".to_string(), 19),
            ("debug_ping data=%*s".to_string(), 17),
        ]),
        responses: ResponseDefs(vec![
            ("clock clock=%u".to_string(), 80),
            ("pong data=%*s".to_string(), 81),
            ("analog_in_state oid=%c next_clock=%u value=%hu".to_string(), 44),
        ]),
        enums: vec![],
    };
    Registry::compile(&d).unwrap()
}

fn named(list: Vec<(&str, FieldValue)>) -> Vec<(String, FieldValue)> {
    list.into_iter().map(|(n, v)| (n.to_string(), v)).collect()
}

#[test]
fn encode_command_writes_id_then_fields() {
    let reg = registry();
    let def = reg.lookup_command("queue_step").unwrap();
    let values = named(vec![
        ("oid", FieldValue::U8(2)),
        ("interval", FieldValue::U32(1234)),
        ("count", FieldValue::U16(5)),
        ("add", FieldValue::I16(-1)),
    ]);
    assert_eq!(encode_command(def, &values), Ok(vec![19, 2, 0x89, 0x52, 5, 0x7f]));
}

#[test]
fn bytes_field_is_length_then_bytes() {
    let reg = registry();
    let def = reg.lookup_command("debug_ping").unwrap();
    let values = named(vec![("data", FieldValue::Bytes(vec![1, 2, 3]))]);
    assert_eq!(encode_command(def, &values), Ok(vec![17, 3, 1, 2, 3]));
}

#[test]
fn mismatched_arguments_are_rejected() {
    let reg = registry();
    let def = reg.lookup_command("queue_step").unwrap();
    let wrong_order = named(vec![
        ("interval", FieldValue::U32(1)),
        ("oid", FieldValue::U8(2)),
        ("count", FieldValue::U16(5)),
        ("add", FieldValue::I16(-1)),
    ]);
    assert_eq!(encode_command(def, &wrong_order), Err(MessageError::ArgumentMismatch));
    let wrong_type = named(vec![
        ("oid", FieldValue::U32(2)),
        ("interval", FieldValue::U32(1)),
        ("count", FieldValue::U16(5)),
        ("add", FieldValue::I16(-1)),
    ]);
    assert_eq!(encode_args(&def.command.fields, &wrong_type), Err(MessageError::ArgumentMismatch));
    let too_few = named(vec![("oid", FieldValue::U8(2))]);
    assert_eq!(encode_command(def, &too_few), Err(MessageError::ArgumentMismatch));
}

#[test]
fn decode_message_reads_id_and_fields() {
    let reg = registry();
    let (id, d) = reg.decode_message(&[80, 0x89, 0x52]).unwrap();
    assert_eq!(id, 80);
    assert_eq!(d.values, named(vec![("clock", FieldValue::U32(1234))]));
    assert_eq!(d.trailing, 0);
    let (id2, d2) = reg.decode_message(&[81, 2, 9, 8, 7]).unwrap();
    assert_eq!(id2, 81);
    assert_eq!(d2.values, named(vec![("data", FieldValue::Bytes(vec![9, 8]))]));
    assert_eq!(d2.trailing, 1);
}

#[test]
fn decode_message_errors() {
    let reg = registry();
    assert_eq!(reg.decode_message(&[]).err(), Some(MessageError::Truncated));
    assert_eq!(reg.decode_message(&[0x80, 0x63]).err(), Some(MessageError::NoSuchId(99)));
    assert_eq!(reg.decode_message(&[0x63]).err(), Some(MessageError::NoSuchId(-29)));
    assert_eq!(reg.decode_message(&[0x7f]).err(), Some(MessageError::NoSuchId(-1)));
    assert_eq!(reg.decode_message(&[80, 0x89]).err(), Some(MessageError::Truncated));
    assert_eq!(reg.decode_message(&[81, 3, 1]).err(), Some(MessageError::Truncated));
}

#[test]
fn decode_response_converts_wire_values() {
    let reg = registry();
    let def = reg.lookup_response_by_id(44).unwrap();
    let d = decode_response(def, &[1, 0x7f, 0x81, 0x00]).unwrap();
    assert_eq!(
        d.values,
        named(vec![
            ("oid", FieldValue::U8(1)),
            ("next_clock", FieldValue::U32(u32::MAX)),
            ("value", FieldValue::U16(128)),
        ])
    );
}

#[test]
fn arguments_round_trip_through_bytes() {
    let reg = registry();
    let def = reg.lookup_command("queue_step").unwrap();
    let values = named(vec![
        ("oid", FieldValue::U8(255)),
        ("interval", FieldValue::U32(4_000_000_000)),
        ("count", FieldValue::U16(65535)),
        ("add", FieldValue::I16(-32768)),
    ]);
    let mut bytes = encode_args(&def.command.fields, &values).unwrap();
    bytes.push(0x42);
    let d = decode_args(&def.command.fields, &bytes, 0).unwrap();
    assert_eq!(d.values, values);
    assert_eq!(d.trailing, 1);
    let ping = reg.lookup_command("debug_ping").unwrap();
    let data = named(vec![("data", FieldValue::Bytes((0..200u8).collect()))]);
    let encoded = encode_args(&ping.command.fields, &data).unwrap();
    assert_eq!(encoded.len(), 202);
    assert_eq!(decode_args(&ping.command.fields, &encoded, 0).unwrap().values, data);
}
