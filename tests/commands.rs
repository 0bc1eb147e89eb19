use wind_kvstore::command::{
    parse_compact, parse_delete_command, parse_get_command, parse_identifier_get,
    parse_identifier_set, parse_put_command, trim_command, CommandError,
};

fn pair(k: &str, v: &str) -> (String, String) {
    (k.to_string(), v.to_string())
}

#[test]
fn put_with_one_pair() {
    assert_eq!(parse_put_command("PUT \"a\":\"1\"").unwrap(), vec![pair("a", "1")]);
}

#[test]
fn put_with_several_pairs_keeps_all_in_order() {
    assert_eq!(
        parse_put_command("PUT \"a\":\"1\", \"b\":\"2\" ,\"c\":\"3\"  ").unwrap(),
        vec![pair("a", "1"), pair("b", "2"), pair("c", "3")]
    );
}

#[test]
fn put_rejects_malformed() {
    assert_eq!(parse_put_command("PUT \"a\":\"\""), Err(CommandError::InvalidPut));
    assert_eq!(parse_put_command("PUT\"a\":\"1\""), Err(CommandError::InvalidPut));
    assert_eq!(parse_put_command("PUT \"a\" : \"1\""), Err(CommandError::InvalidPut));
    assert_eq!(parse_put_command("PUT \"a\":\"1\","), Err(CommandError::InvalidPut));
    assert_eq!(parse_put_command("GET WHERE KEY=\"a\""), Err(CommandError::InvalidPut));
}

#[test]
fn put_match_may_start_inside_the_command() {
    assert_eq!(parse_put_command("xPUT \"k\":\"v\"").unwrap(), vec![pair("k", "v")]);
}

#[test]
fn get_and_delete_take_the_key() {
    assert_eq!(parse_get_command("GET WHERE KEY=\"my key\"").unwrap(), "my key");
    assert_eq!(parse_get_command("GET  WHERE\tKEY = \"k\" ").unwrap(), "k");
    assert_eq!(parse_delete_command("DEL WHERE KEY=\"k\"").unwrap(), "k");
    assert_eq!(parse_get_command("GET WHERE KEY=\"\""), Err(CommandError::InvalidGet));
    assert_eq!(parse_get_command("get where key=\"k\""), Err(CommandError::InvalidGet));
    assert_eq!(parse_delete_command("DEL WHERE KEY=\"k\" x"), Err(CommandError::InvalidDelete));
}

#[test]
fn identifier_commands() {
    assert_eq!(parse_identifier_get("  identifier get "), Ok(()));
    assert_eq!(parse_identifier_get("IDENTIFIER  GET"), Err(CommandError::InvalidIdentifierGet));
    assert_eq!(parse_identifier_set("IDENTIFIER SET \"abc\"").unwrap(), "abc");
    assert_eq!(parse_identifier_set("IDENTIFIER SET abc"), Err(CommandError::InvalidIdentifierSet));
}

#[test]
fn compact_command_ignores_case_and_spaces() {
    assert_eq!(parse_compact("Compact"), Ok(()));
    assert_eq!(parse_compact("\u{3000}COMPACT\n"), Ok(()));
    assert_eq!(parse_compact("COMPACT NOW"), Err(CommandError::InvalidCompact));
}

#[test]
fn trim_drops_unicode_whitespace() {
    assert_eq!(trim_command("\u{a0} GET \t"), "GET");
    assert_eq!(trim_command("   "), "");
}

#[test]
fn command_error_messages() {
    assert_eq!(CommandError::InvalidPut.message(), "Invalid PUT command format");
    assert_eq!(CommandError::InvalidCompact.message(), "Invalid COMPACT command");
}
