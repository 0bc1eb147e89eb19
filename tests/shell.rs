use wind_kvstore::api::{api_value_string, parse_and_execute, split_commands};
use wind_kvstore::config::{ConfigError, ServerConfig};
use wind_kvstore::shell::{ShellError, Shell};
use wind_kvstore::store::Store;

fn shell_with_store() -> Shell {
    let mut sh = Shell::new();
    sh.attach("/tmp/data/test.db".to_string(), Store::create());
    sh
}

#[test]
fn commands_need_an_open_store() {
    let mut sh = Shell::new();
    assert!(matches!(sh.execute_command("GET WHERE KEY=\"a\""), Err(ShellError::NoDatabase)));
    assert!(matches!(sh.execute_command(".open x"), Err(ShellError::MetaCommand)));
    assert_eq!(sh.get_prompt(), "\nKVStore > ");
}

#[test]
fn prompt_shows_the_file_name() {
    let sh = shell_with_store();
    assert_eq!(sh.get_prompt(), "\ntest.db > ");
}

#[test]
fn shell_round_trip() {
    let mut sh = shell_with_store();
    assert_eq!(sh.execute_command("PUT \"a\":\"1\",\"b\":\"2\"").unwrap(), "Inserted 2 key-value pairs");
    assert_eq!(sh.execute_command("GET WHERE KEY=\"a\"").unwrap(), "1");
    assert_eq!(sh.execute_command("DEL WHERE KEY=\"a\"").unwrap(), "Key deleted");
    assert_eq!(sh.execute_command("DEL WHERE KEY=\"a\"").unwrap(), "Key not found");
    assert_eq!(sh.execute_command("GET WHERE KEY=\"a\"").unwrap(), "Key not found");
    assert_eq!(sh.execute_command("IDENTIFIER SET \"abc\"").unwrap(), "Identifier set to 'abc'");
    assert_eq!(sh.execute_command(" identifier get ").unwrap(), "abc");
    assert_eq!(sh.execute_command("COMPACT").unwrap(), "Database compacted");
    assert_eq!(sh.execute_command("GET WHERE KEY=\"b\"").unwrap(), "2");
    match sh.execute_command("FROB") {
        Err(ShellError::UnknownCommand(c)) => assert_eq!(c, "FROB"),
        other => panic!("unexpected {:?}", other),
    }
}

#[test]
fn binary_values_are_shown_in_hex() {
    let mut sh = Shell::new();
    let mut store = Store::create();
    store.put(b"bin", &[0xff, 0x0a, 0xfe]).unwrap();
    sh.attach("db".to_string(), store);
    assert_eq!(sh.handle_get_command("bin".to_string()).unwrap(), "<BINARY DATA: FF 0A FE>");
    assert_eq!(sh.get_prompt(), "\ndb > ");
}

#[test]
fn invalid_identifier_through_shell_is_an_error() {
    let mut sh = shell_with_store();
    assert!(matches!(sh.execute_command("IDENTIFIER SET \"\u{7}\""), Err(ShellError::Store(_))));
    assert_eq!(sh.handle_identifier_get().unwrap(), "default");
}

#[test]
fn detach_leaves_no_store() {
    let mut sh = shell_with_store();
    assert!(sh.detach().is_some());
    assert!(sh.detach().is_none());
    assert!(matches!(sh.handle_compact(), Err(ShellError::NoDatabase)));
}

#[test]
fn api_commands() {
    let mut s = Store::create();
    assert_eq!(parse_and_execute("PUT \"a\":\"1\"", &mut s).unwrap(), "Inserted 1 key-value pairs");
    assert_eq!(parse_and_execute(" GET WHERE KEY=\"a\" ", &mut s).unwrap(), "1");
    assert_eq!(parse_and_execute("DEL WHERE KEY=\"zz\"", &mut s).unwrap(), "Key deleted");
    assert_eq!(parse_and_execute("IDENTIFIER GET", &mut s).unwrap(), "default");
    assert!(matches!(parse_and_execute("NOPE", &mut s), Err(ShellError::Unrecognized)));
    assert_eq!(ShellError::Unrecognized.message(), "Unknown command");
    assert_eq!(api_value_string(vec![0xff]), "<BINARY>");
    assert_eq!(api_value_string(b"ok".to_vec()), "ok");
}

#[test]
fn request_body_is_split_at_semicolons() {
    assert_eq!(
        split_commands("PUT \"a\":\"1\"; GET WHERE KEY=\"a\";; ;"),
        vec!["PUT \"a\":\"1\"".to_string(), " GET WHERE KEY=\"a\"".to_string()]
    );
    assert_eq!(split_commands(""), Vec::<String>::new());
}

#[test]
fn config_from_toml() {
    let c = ServerConfig::from_toml("[server]\nhost = \"0.0.0.0\"\nport = 8080\n").unwrap();
    assert_eq!(c.host, "0.0.0.0");
    assert_eq!(c.port, 8080);
    let c = ServerConfig::from_toml("[server]\nport = 65537\n").unwrap();
    assert_eq!(c.host, "127.0.0.1");
    assert_eq!(c.port, 1);
    let c = ServerConfig::from_toml("title = \"x\"\n").unwrap();
    assert_eq!(c.port, 14514);
    assert!(matches!(ServerConfig::from_toml("[server"), Err(ConfigError::Syntax)));
}

#[test]
fn put_stops_at_first_refused_pair() {
    let mut sh = shell_with_store();
    let kvs = vec![
        ("a".to_string(), "1".to_string()),
        (String::new(), "2".to_string()),
        ("c".to_string(), "3".to_string()),
    ];
    match sh.handle_put_command(kvs) {
        Err(ShellError::Store(e)) => assert_eq!(e, wind_kvstore::error::KvError::InvalidArgument),
        other => panic!("unexpected {:?}", other),
    }
    assert_eq!(sh.execute_command("GET WHERE KEY=\"a\"").unwrap(), "1");
    assert_eq!(sh.execute_command("GET WHERE KEY=\"c\"").unwrap(), "Key not found");
    assert_eq!(sh.open_store().unwrap().log().len(), 70 + 15);
}

#[test]
fn shell_compaction_leaves_one_record_per_key() {
    let mut sh = shell_with_store();
    sh.execute_command("PUT \"a\":\"1\",\"a\":\"2\",\"b\":\"3\"").unwrap();
    sh.execute_command("DEL WHERE KEY=\"b\"").unwrap();
    assert_eq!(sh.open_store().unwrap().log().len(), 70 + 3 * 15 + 14);
    assert_eq!(sh.execute_command("COMPACT").unwrap(), "Database compacted");
    assert_eq!(sh.open_store().unwrap().log().len(), 70 + 15);
    assert_eq!(sh.execute_command("GET WHERE KEY=\"a\"").unwrap(), "2");
}
