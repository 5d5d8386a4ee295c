use ironside::command::{CommandParseError, EnumType};
use ironside::data::{
    compile_messages, compile_variants, CommandDefs, Dictionary, EnumValue, Registry,
    ResponseDefs, Variants,
};

fn defs(list: &[(&str, u8)]) -> Vec<(String, u8)> {
    list.iter().map(|(s, id)| (s.to_string(), *id)).collect()
}

fn variants(list: &[(&str, EnumValue<u8>)]) -> Variants {
    Variants(list.iter().map(|(s, v)| (s.to_string(), *v)).collect())
}

fn sample_dictionary() -> Dictionary {
    Dictionary {
        build_versions: "gcc: 10".to_string(),
        version: "v0.10.0".to_string(),
        commands: CommandDefs(defs(&[
            ("identify offset=%u count=%c", 1),
            ("get_uptime", 13),
            ("queue_step oid=%c interval=%u count=%hu add=%hi", 19),
        ])),
        responses: ResponseDefs(defs(&[
            ("identify_response offset=%u data=%.*s", 0),
            ("uptime high=%u clock=%u", 78),
        ])),
        enums: vec![
            ("pin".to_string(), variants(&[("pin_a0", EnumValue::Ranged(4, 8)), ("led", EnumValue::Static(40))])),
            ("spi_bus".to_string(), variants(&[("spi1", EnumValue::Static(0))])),
        ],
    }
}

#[test]
fn enum_range_expands_to_numbered_variants() {
    let out = compile_variants(&variants(&[("pin_a0", EnumValue::Ranged(4, 8))])).unwrap();
    let expected: Vec<(String, u8)> = (0..8u8).map(|i| (format!("pin_a{}", i), 4 + i)).collect();
    assert_eq!(out, expected);
}

#[test]
fn range_prefix_strips_exactly_one_digit() {
    let out = compile_variants(&variants(&[("PA10", EnumValue::Ranged(0, 2)), ("gpio", EnumValue::Ranged(100, 12))]))
        .unwrap();
    assert_eq!(out[0], ("PA10".to_string(), 0));
    assert_eq!(out[1], ("PA11".to_string(), 1));
    assert_eq!(out[2], ("gpio0".to_string(), 100));
    assert_eq!(out[13], ("gpio11".to_string(), 111));
}

#[test]
fn range_with_three_digit_indexes() {
    let out = compile_variants(&variants(&[("p", EnumValue::Ranged(0, 255))])).unwrap();
    assert_eq!(out.len(), 255);
    assert_eq!(out[254], ("p254".to_string(), 254));
    assert_eq!(out[100], ("p100".to_string(), 100));
}

#[test]
fn enum_errors() {
    assert_eq!(
        compile_variants(&variants(&[("p", EnumValue::Ranged(250, 7))])).err(),
        Some(CommandParseError::RangeOverflow)
    );
    assert!(compile_variants(&variants(&[("p", EnumValue::Ranged(250, 6))])).is_ok());
    assert_eq!(
        compile_variants(&variants(&[("a", EnumValue::Static(1)), ("b", EnumValue::Static(1))])).err(),
        Some(CommandParseError::DuplicateDefinition)
    );
    assert_eq!(
        compile_variants(&variants(&[("a0", EnumValue::Ranged(0, 2)), ("a1", EnumValue::Static(9))])).err(),
        Some(CommandParseError::DuplicateDefinition)
    );
    assert_eq!(compile_variants(&variants(&[("none", EnumValue::Ranged(3, 0))])), Ok(vec![]));
}

#[test]
fn messages_compile_in_order() {
    let ms = compile_messages(&defs(&[("get_clock", 43), ("reset", 37)])).unwrap();
    assert_eq!(ms.len(), 2);
    assert_eq!((ms[0].id, ms[0].command.name.as_str()), (43, "get_clock"));
    assert_eq!((ms[1].id, ms[1].command.name.as_str()), (37, "reset"));
}

#[test]
fn duplicate_messages_are_rejected() {
    assert_eq!(
        compile_messages(&defs(&[("a x=%c", 1), ("a y=%u", 2)])).err(),
        Some(CommandParseError::DuplicateDefinition)
    );
    assert_eq!(
        compile_messages(&defs(&[("a", 1), ("b", 1)])).err(),
        Some(CommandParseError::DuplicateDefinition)
    );
    assert_eq!(
        compile_messages(&defs(&[("a", 1), ("b x", 2)])).err(),
        Some(CommandParseError::MissingScanf)
    );
}

#[test]
fn registry_compiles_and_looks_up() {
    let reg = Registry::compile(&sample_dictionary()).unwrap();
    assert_eq!(reg.commands.len(), 3);
    assert_eq!(reg.responses.len(), 2);
    assert_eq!(reg.enums.len(), 2);
    assert_eq!(reg.enums[0].name, "pin");
    assert_eq!(reg.enums[0].variants.len(), 9);
    assert_eq!(reg.enums[0].variants[8], ("led".to_string(), 40));
    let q = reg.lookup_command("queue_step").unwrap();
    assert_eq!(q.id, 19);
    assert_eq!(q.command.fields.get("add"), Some(&EnumType::I16));
    assert!(reg.lookup_command("queue_stepx").is_none());
    assert_eq!(reg.lookup_command_by_id(13).unwrap().command.name, "get_uptime");
    assert_eq!(reg.lookup_command_by_id(14).err(), Some(CommandParseError::NoSuchId(14)));
    assert_eq!(reg.lookup_response_by_id(78).unwrap().command.name, "uptime");
    assert_eq!(reg.lookup_response_by_id(1).err(), Some(CommandParseError::NoSuchId(1)));
}

#[test]
fn registry_reports_first_failure() {
    let mut d = sample_dictionary();
    d.responses = ResponseDefs(defs(&[("bad x=%z", 3)]));
    assert_eq!(
        Registry::compile(&d).err(),
        Some(CommandParseError::InvalidLiteral { what: "%z".to_string() })
    );
    let mut d2 = sample_dictionary();
    d2.enums.push(("e".to_string(), variants(&[("x", EnumValue::Ranged(255, 2))])));
    assert_eq!(Registry::compile(&d2).err(), Some(CommandParseError::RangeOverflow));
}

#[test]
fn well_formedness_check() {
    let reg = Registry::compile(&sample_dictionary()).unwrap();
    assert!(reg.is_well_formed());
    let mut bad = Registry::compile(&sample_dictionary()).unwrap();
    let dup = compile_messages(&defs(&[("get_uptime", 99)])).unwrap();
    bad.commands.extend(dup);
    assert!(!bad.is_well_formed());
}
