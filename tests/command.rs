use indexmap::IndexMap;
use ironside::command::{Command, CommandParseError, EnumType, FromCommandDecl, ScanfToken};

fn expected_st7920() -> IndexMap<String, EnumType> {
    [
        ("oid", EnumType::U8),
        ("cs_pin", EnumType::U32),
        ("sclk_pin", EnumType::U32),
        ("sid_pin", EnumType::U32),
        ("sync_delay_ticks", EnumType::U32),
        ("cmd_delay_ticks", EnumType::U32),
    ]
    .iter()
    .map(|(s, t)| (s.to_string(), *t))
    .collect()
}

#[test]
fn lib_test_parse_struct_from_command_def() {
    let s = "config_st7920 oid=%c cs_pin=%u sclk_pin=%u sid_pin=%u sync_delay_ticks=%u cmd_delay_ticks=%u";
    let command = Command::from_str(s).unwrap();
    let fields = expected_st7920();
    assert_eq!(command.fields, fields);
}

#[test]
fn command_test_parse_struct_from_command_def() {
    let s = "config_st7920 oid=%c cs_pin=%u sclk_pin=%u sid_pin=%u sync_delay_ticks=%u cmd_delay_ticks=%u";
    let command = <Command as FromCommandDecl>::from_str(s).unwrap();
    let fields = expected_st7920();
    assert_eq!(command.fields, fields);
}

#[test]
fn parse_keeps_name_definition_and_field_order() {
    let s = "config_st7920 oid=%c cs_pin=%u sclk_pin=%u sid_pin=%u sync_delay_ticks=%u cmd_delay_ticks=%u";
    let command = Command::from_str(s).unwrap();
    assert_eq!(command.name, "config_st7920");
    assert_eq!(command.def, s);
    let names: Vec<&str> = command.fields.keys().map(|k| k.as_str()).collect();
    assert_eq!(
        names,
        vec!["oid", "cs_pin", "sclk_pin", "sid_pin", "sync_delay_ticks", "cmd_delay_ticks"]
    );
}

#[test]
fn every_scanf_token_is_recognised() {
    let c = Command::from_str("t a=%c b=%hu c=%u d=%hi e=%i f=%s g=%*s h=%.*s").unwrap();
    let types: Vec<ScanfToken> = c.fields.values().copied().collect();
    assert_eq!(
        types,
        vec![
            EnumType::U8,
            EnumType::U16,
            EnumType::U32,
            EnumType::I16,
            EnumType::I32,
            EnumType::Bytes,
            EnumType::Bytes,
            EnumType::Bytes
        ]
    );
}

#[test]
fn any_whitespace_separates_words() {
    let c = Command::from_str("  get_uptime\t\n oid=%c\r\n").unwrap();
    assert_eq!(c.name, "get_uptime");
    assert_eq!(c.fields.len(), 1);
    assert_eq!(c.fields.get("oid"), Some(&EnumType::U8));
}

#[test]
fn declaration_without_arguments() {
    let c = Command::from_str("clear_shutdown").unwrap();
    assert_eq!(c.name, "clear_shutdown");
    assert!(c.fields.is_empty());
}

#[test]
fn repeated_field_keeps_first_place_and_last_type() {
    let c = Command::from_str("x a=%c b=%u a=%i").unwrap();
    let entries: Vec<(String, EnumType)> =
        c.fields.iter().map(|(k, v)| (k.clone(), *v)).collect();
    assert_eq!(
        entries,
        vec![("a".to_string(), EnumType::I32), ("b".to_string(), EnumType::U32)]
    );
}

#[test]
fn parse_errors() {
    assert_eq!(Command::from_str("").err(), Some(CommandParseError::MissingIdent));
    assert_eq!(Command::from_str("   ").err(), Some(CommandParseError::MissingIdent));
    assert_eq!(Command::from_str("x =%c").err(), Some(CommandParseError::MissingIdent));
    assert_eq!(Command::from_str("x oid").err(), Some(CommandParseError::MissingScanf));
    assert_eq!(Command::from_str("x oid=").err(), Some(CommandParseError::MissingScanf));
    assert_eq!(
        Command::from_str("x oid=%q").err(),
        Some(CommandParseError::InvalidLiteral { what: "%q".to_string() })
    );
    assert_eq!(
        Command::from_str("x a=%c b=%lu c").err(),
        Some(CommandParseError::InvalidLiteral { what: "%lu".to_string() })
    );
}

#[test]
fn token_after_first_equals_sign_is_whole() {
    assert_eq!(
        Command::from_str("x a=b=%c").err(),
        Some(CommandParseError::InvalidLiteral { what: "b=%c".to_string() })
    );
}

#[test]
fn scanf_tokens_by_text() {
    assert_eq!(EnumType::from_scanf("%c"), Some(EnumType::U8));
    assert_eq!(EnumType::from_scanf("%hu"), Some(EnumType::U16));
    assert_eq!(EnumType::from_scanf("%u"), Some(EnumType::U32));
    assert_eq!(EnumType::from_scanf("%hi"), Some(EnumType::I16));
    assert_eq!(EnumType::from_scanf("%i"), Some(EnumType::I32));
    assert_eq!(EnumType::from_scanf("%.*s"), Some(EnumType::Bytes));
    assert_eq!(EnumType::from_scanf("%d"), None);
    assert_eq!(EnumType::from_scanf("%c "), None);
    assert_eq!(EnumType::from_scanf(""), None);
}
