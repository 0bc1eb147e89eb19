//! The service's configuration: the host and port it listens on, read from
//! the `[server]` table of a TOML document.
use vstd::prelude::*;
use vstd::string::*;

verus! {

#[verifier::external_type_specification]
#[verifier::external_body]
pub struct ExTomlValue(toml::Value);

#[verifier::external_type_specification]
#[verifier::external_body]
pub struct ExTomlError(toml::de::Error);

/// The document `toml::Value`'s `FromStr` reads from a text; `None` where
/// the text is no TOML.
pub uninterp spec fn toml_document(text: Seq<char>) -> Option<toml::Value>;

/// The value `toml::Value::get` finds under a string key.
pub uninterp spec fn toml_entry(v: toml::Value, key: Seq<char>) -> Option<toml::Value>;

/// The text `toml::Value::as_str` finds in a value.
pub uninterp spec fn toml_string(v: toml::Value) -> Option<Seq<char>>;

/// The number `toml::Value::as_integer` finds in a value.
pub uninterp spec fn toml_integer(v: toml::Value) -> Option<i64>;

/// Relies on `toml::Value::as_str`: the text of a string value, `None` for
/// any other value; the result depends on the value alone.
pub assume_specification[ toml::Value::as_str ](v: &toml::Value) -> (r: Option<&str>)
    ensures
        match r {
            Some(t) => toml_string(*v) == Some(t@),
            None => toml_string(*v) is None,
        },
;

/// Relies on `toml::Value::as_integer`: the number of an integer value,
/// `None` for any other value; the result depends on the value alone.
pub assume_specification[ toml::Value::as_integer ](v: &toml::Value) -> (r: Option<i64>)
    ensures
        r == toml_integer(*v),
;

/// Relies on `toml::Value`'s `FromStr`: parses a TOML document, failing on
/// text that is no TOML; the result depends on the text alone.
#[verifier::external_body]
fn parse_toml(text: &str) -> (r: Result<toml::Value, toml::de::Error>)
    ensures
        match r {
            Ok(v) => toml_document(text@) == Some(v),
            Err(_) => toml_document(text@) is None,
        },
{
    text.parse::<toml::Value>()
}

/// Relies on `toml::Value::get` with a string index: the value under `key`
/// of a table, `None` where the key is missing or the value is no table;
/// the result depends on the value and the key alone.
#[verifier::external_body]
fn table_entry<'a>(v: &'a toml::Value, key: &str) -> (r: Option<&'a toml::Value>)
    ensures
        match r {
            Some(x) => toml_entry(*v, key@) == Some(*x),
            None => toml_entry(*v, key@) is None,
        },
{
    v.get(key)
}

/// The value under `key` in the `[server]` table of a TOML text.
pub open spec fn server_value(text: Seq<char>, key: Seq<char>) -> Option<toml::Value> {
    match toml_document(text) {
        Some(d) => match toml_entry(d, "server"@) {
            Some(t) => toml_entry(t, key),
            None => None,
        },
        None => None,
    }
}

/// The `host` string of the `[server]` table, if there is one.
pub open spec fn server_host(text: Seq<char>) -> Option<Seq<char>> {
    match server_value(text, "host"@) {
        Some(h) => toml_string(h),
        None => None,
    }
}

/// The `port` integer of the `[server]` table, if there is one.
pub open spec fn server_port(text: Seq<char>) -> Option<i64> {
    match server_value(text, "port"@) {
        Some(p) => toml_integer(p),
        None => None,
    }
}

/// The port used where the configuration names none.
pub const DEFAULT_PORT: u16 = 14514;

/// The host named, or the default one.
pub open spec fn host_or_default(h: Option<Seq<char>>) -> Seq<char> {
    match h {
        Some(t) => t,
        None => "127.0.0.1"@,
    }
}

/// The low 16 bits of the port named, or the default port.
pub open spec fn port_or_default(p: Option<i64>) -> u16 {
    match p {
        Some(n) => n as u16,
        None => DEFAULT_PORT,
    }
}

/// Where the service listens.
pub struct ServerConfig {
    pub host: String,
    pub port: u16,
}

/// The configuration file is no TOML document.
#[derive(Clone, Copy, Debug, PartialEq, Eq, Structural)]
pub enum ConfigError {
    Syntax,
}

impl Default for ServerConfig {
    fn default() -> (r: ServerConfig)
        ensures
            r.host@ == "127.0.0.1"@,
            r.port == DEFAULT_PORT,
    {
        ServerConfig { host: String::from_str("127.0.0.1"), port: DEFAULT_PORT }
    }
}

impl ServerConfig {
    /// The configuration from the values found for `host` and `port`: each
    /// missing one takes its default, and the port keeps the low 16 bits of
    /// the number given.
    pub fn from_parts(host: Option<&str>, port: Option<i64>) -> (c: ServerConfig)
        ensures
            c.host@ == host_or_default(
                match host {
                    Some(h) => Some(h@),
                    None => None,
                },
            ),
            c.port == port_or_default(port),
    {
        let host = match host {
            Some(h) => h.to_owned(),
            None => String::from_str("127.0.0.1"),
        };
        let port = match port {
            Some(p) => #[verifier::truncate] (p as u16),
            None => DEFAULT_PORT,
        };
        ServerConfig { host, port }
    }

    /// Reads the `[server]` table of a TOML document: its `host` string and
    /// `port` integer, each missing one taking its default. Fails exactly on
    /// text that is no TOML.
    pub fn from_toml(text: &str) -> (r: Result<ServerConfig, ConfigError>)
        ensures
            r is Ok <==> toml_document(text@) is Some,
            match r {
                Ok(c) => c.host@ == host_or_default(server_host(text@)) && c.port == port_or_default(
                    server_port(text@),
                ),
                Err(e) => e == ConfigError::Syntax,
            },
    {
        let root = match parse_toml(text) {
            Ok(v) => v,
            Err(_) => return Err(ConfigError::Syntax),
        };
        match table_entry(&root, "server") {
            None => Ok(ServerConfig::default()),
            Some(server) => {
                let host = match table_entry(server, "host") {
                    Some(h) => h.as_str(),
                    None => None,
                };
                let port = match table_entry(server, "port") {
                    Some(p) => p.as_integer(),
                    None => None,
                };
                Ok(ServerConfig::from_parts(host, port))
            },
        }
    }
}

} // verus!
