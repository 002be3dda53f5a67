use roused::address::{parse_socket_address, IpAddress, SocketAddress};
use roused::config::{valid_launchd_label, Config, ConfigError};
use roused::document::{
    decode_config, read_document, DocumentError, RawConfig, RawService, Span, TomlContents,
    TomlEntry, TomlItem, TomlValue,
};
use roused::host::{normalize_config_host, normalize_request_host};
use serde::de::{
    Deserialize, DeserializeSeed, Deserializer, Error, MapAccess, SeqAccess, Visitor,
};
use std::fmt::Formatter;

const VALID: &str = r#"
listen = "127.0.0.1:8080"

[[services]]
host = "Alpha.Apps.Test."
upstream = "127.0.0.1:9001"
launchd_label = "net.test.alpha"
"#;

fn error(input: &str) -> String {
    match Config::from_toml(input) {
        Ok(_) => panic!("accepted: {input}"),
        Err(error) => error.message(),
    }
}

fn accepted(input: &str) -> Config {
    match Config::from_toml(input) {
        Ok(config) => config,
        Err(error) => panic!("{}", error.message()),
    }
}

fn address(text: &str) -> SocketAddress {
    parse_socket_address(text).unwrap()
}

#[test]
fn parses_defaults_and_lifecycle_fields_without_using_them() {
    let config = accepted(VALID);
    let service = &config.services()[0];
    assert_eq!(config.listen(), address("127.0.0.1:8080"));
    assert_eq!(service.host(), "alpha.apps.test");
    assert_eq!(service.upstream(), address("127.0.0.1:9001"));
    assert_eq!(service.launchd_label(), "net.test.alpha");
    assert_eq!(service.idle_timeout_seconds(), 1_800);
    assert!(service.can_stop_command().is_none());
}

#[test]
fn parses_explicit_lifecycle_fields_as_opaque_configuration() {
    let input = VALID.replace(
        "launchd_label = \"net.test.alpha\"",
        "launchd_label = \"net.test.alpha\"\nidle_timeout_seconds = 42\ncan_stop_command = [\"/opt/test/check\", \"\"]",
    );
    let config = accepted(&input);
    let service = &config.services()[0];
    assert_eq!(service.idle_timeout_seconds(), 42);
    assert_eq!(service.can_stop_command().unwrap(), ["/opt/test/check", ""]);
}

#[test]
fn rejects_unknown_fields_at_both_levels() {
    assert!(error(&VALID.replace("listen =", "extra = true\nlisten =")).contains("unknown field"));
    assert!(error(&VALID.replace("host =", "extra = true\nhost =")).contains("unknown field"));
}

#[test]
fn rejects_malformed_or_nonloopback_addresses() {
    assert!(error(&VALID.replace("127.0.0.1:8080", "localhost:8080")).contains("listen"));
    for listen in ["127.0.0.1:0", "127.0.0.1:80"] {
        assert!(error(&VALID.replace("127.0.0.1:8080", listen)).contains("unprivileged"));
    }
    for upstream in [
        "localhost:9001",
        "0.0.0.0:9001",
        "192.0.2.1:9001",
        "127.0.0.1:0",
    ] {
        assert!(error(&VALID.replace("127.0.0.1:9001", upstream)).contains("upstream"));
    }
    assert!(Config::from_toml(&VALID.replace("127.0.0.1:9001", "[::1]:9001")).is_ok());
}

#[test]
fn rejects_every_named_duplicate() {
    let second = r#"
[[services]]
host = "beta.apps.test"
upstream = "127.0.0.1:9002"
launchd_label = "net.test.beta"
"#;
    assert!(error(&format!(
        "{VALID}{}",
        second.replace("beta.apps.test", "ALPHA.APPS.TEST")
    ))
    .contains("host"));
    assert!(error(&format!(
        "{VALID}{}",
        second.replace("net.test.beta", "net.test.alpha")
    ))
    .contains("launchd_label"));
    assert!(error(&format!(
        "{VALID}{}",
        second.replace("127.0.0.1:9002", "127.0.0.1:9001")
    ))
    .contains("upstream"));
}

#[test]
fn rejects_invalid_lifecycle_values() {
    assert!(error(&VALID.replace(
        "launchd_label = \"net.test.alpha\"",
        "launchd_label = \"bad/label\""
    ))
    .contains("launchd_label"));
    assert!(error(&VALID.replace(
        "launchd_label = \"net.test.alpha\"",
        "launchd_label = \"bad label\""
    ))
    .contains("launchd_label"));
    assert!(error(&VALID.replace(
        "launchd_label = \"net.test.alpha\"",
        "launchd_label = \"net.test.alpha\"\nidle_timeout_seconds = 0"
    ))
    .contains("idle_timeout"));
    assert!(error(&VALID.replace(
        "launchd_label = \"net.test.alpha\"",
        "launchd_label = \"net.test.alpha\"\ncan_stop_command = []"
    ))
    .contains("must not be empty"));
    assert!(error(&VALID.replace(
        "launchd_label = \"net.test.alpha\"",
        "launchd_label = \"net.test.alpha\"\ncan_stop_command = [\"relative\"]"
    ))
    .contains("absolute path"));
}

#[test]
fn normalizes_only_supported_request_hosts() {
    for host in [
        "ALPHA.APPS.TEST",
        "alpha.apps.test.",
        "AlPhA.Apps.Test:8080",
        "AlPhA.Apps.Test.:8080",
    ] {
        assert_eq!(
            normalize_request_host(host, 8080).as_deref(),
            Some("alpha.apps.test")
        );
    }
    for host in [
        "alpha.apps.test:8081",
        "alpha.apps.test:",
        "alpha.apps.test:99999",
        "user@alpha.apps.test",
        "alpha..apps.test",
        "127.0.0.1",
        "[::1]:8080",
        "alpha_apps.test",
        "álpha.apps.test",
    ] {
        assert!(normalize_request_host(host, 8080).is_none(), "{host}");
    }
}

#[test]
fn validation_is_atomic_when_a_later_service_is_invalid() {
    let input = format!(
        "{VALID}\n[[services]]\nhost = \"beta.apps.test\"\nupstream = \"203.0.113.8:9002\"\nlaunchd_label = \"net.test.beta\"\n"
    );
    assert!(Config::from_toml(&input).is_err());
}

fn raw_service(host: &str, upstream: &str, label: &str) -> RawService {
    RawService {
        host: host.to_owned(),
        upstream: upstream.to_owned(),
        launchd_label: label.to_owned(),
        idle_timeout_seconds: 60,
        can_stop_command: None,
    }
}

fn raw_config(listen: &str, services: Vec<RawService>) -> RawConfig {
    RawConfig {
        listen: listen.to_owned(),
        services,
    }
}

fn raw_error(raw: RawConfig) -> String {
    match Config::from_raw(raw) {
        Err(ConfigError::Invalid(message)) => message,
        _ => panic!("expected a broken rule"),
    }
}

#[test]
fn every_rule_has_its_own_message() {
    let one = || raw_service("a.test", "127.0.0.1:9001", "net.a");
    assert_eq!(
        raw_error(raw_config("localhost:8080", vec![one()])),
        "listen must be a literal IP socket address"
    );
    assert_eq!(
        raw_error(raw_config("0.0.0.0:1023", vec![one()])),
        "listen must use a fixed unprivileged port (1024 or greater)"
    );
    assert_eq!(
        raw_error(raw_config("0.0.0.0:1024", vec![])),
        "at least one service must be configured"
    );
    assert_eq!(
        raw_error(raw_config(
            "0.0.0.0:8080",
            vec![one(), raw_service("a.test:80", "127.0.0.1:9002", "net.b")]
        )),
        "service 2 host must be an ASCII DNS hostname without a port"
    );
    assert_eq!(
        raw_error(raw_config(
            "0.0.0.0:8080",
            vec![raw_service("a.test", "127.0.0.1", "net.a")]
        )),
        "service 1 upstream must be a literal IP socket address"
    );
    assert_eq!(
        raw_error(raw_config(
            "0.0.0.0:8080",
            vec![raw_service("a.test", "128.0.0.1:9001", "net.a")]
        )),
        "service 1 upstream must be a loopback address with a nonzero port"
    );
    assert_eq!(
        raw_error(raw_config(
            "0.0.0.0:8080",
            vec![raw_service("a.test", "127.255.0.1:9001", "net\u{85}a")]
        )),
        "service 1 launchd_label is invalid"
    );
    let mut hasty = one();
    hasty.idle_timeout_seconds = 0;
    assert_eq!(
        raw_error(raw_config("0.0.0.0:8080", vec![hasty])),
        "service 1 idle_timeout_seconds must be greater than zero"
    );
    let mut silent = one();
    silent.can_stop_command = Some(vec![]);
    assert_eq!(
        raw_error(raw_config("0.0.0.0:8080", vec![silent])),
        "service 1 can_stop_command must not be empty"
    );
    let mut relative = one();
    relative.can_stop_command = Some(vec!["".to_owned(), "/bin/true".to_owned()]);
    assert_eq!(
        raw_error(raw_config("0.0.0.0:8080", vec![relative])),
        "service 1 can_stop_command executable must be an absolute path"
    );
    assert_eq!(
        raw_error(raw_config(
            "0.0.0.0:8080",
            vec![one(), raw_service("A.TEST.", "127.0.0.1:9002", "net.b")]
        )),
        "service 2 duplicates normalized host a.test"
    );
    assert_eq!(
        raw_error(raw_config(
            "0.0.0.0:8080",
            vec![one(), raw_service("b.test", "127.0.0.1:9002", "net.a")]
        )),
        "service 2 duplicates a launchd_label"
    );
    assert_eq!(
        raw_error(raw_config(
            "0.0.0.0:8080",
            vec![one(), raw_service("b.test", "127.0.0.1:9001", "net.b")]
        )),
        "service 2 duplicates an upstream"
    );
}

#[test]
fn services_stand_in_the_order_of_their_hosts() {
    let config = match Config::from_raw(raw_config(
        "[::]:8080",
        vec![
            raw_service("c.test", "127.0.0.1:9003", "net.c"),
            raw_service("a.test", "127.0.0.1:9001", "net.a"),
            raw_service("a-b.test", "[::1]:9001", "net.ab"),
            raw_service("b.test", "127.0.0.1:9002", "net.b"),
        ],
    )) {
        Ok(config) => config,
        Err(error) => panic!("{}", error.message()),
    };
    let hosts: Vec<&str> = config.services().iter().map(|s| s.host()).collect();
    assert_eq!(hosts, ["a-b.test", "a.test", "b.test", "c.test"]);
    assert_eq!(
        config
            .service_for_request_host("B.test.:8080")
            .unwrap()
            .launchd_label(),
        "net.b"
    );
    assert!(config.service_for_request_host("d.test").is_none());
    assert!(config.service_for_request_host("b.test:9002").is_none());
}

#[test]
fn errors_name_what_is_wrong_with_a_document() {
    assert!(error("listen = [\n").starts_with("invalid TOML configuration: "));
    assert!(error("services = []\n").ends_with("\nmissing field `listen`\n"));
    assert!(error("listen = \"127.0.0.1:8080\"\n").ends_with("\nmissing field `services`\n"));
    assert!(error("listen = 5\nservices = []\n")
        .ends_with("\ninvalid type: integer `5`, expected a string\n"));
    assert_eq!(
        error("listen = \"127.0.0.1:8080\"\nservices = []\n"),
        "invalid configuration: at least one service must be configured"
    );
    assert!(error(&VALID.replace(
        "launchd_label = \"net.test.alpha\"",
        "launchd_label = \"a\"\nidle_timeout_seconds = -1"
    ))
    .ends_with("\ninvalid value: integer `-1`, expected u64\n"));
    assert!(error(&VALID.replace(
        "launchd_label = \"net.test.alpha\"",
        "launchd_label = \"a\"\ncan_stop_command = [1]"
    ))
    .ends_with("\ninvalid type: integer `1`, expected a string\n"));
    let read = ConfigError::Read {
        path: "/etc/roused.toml".to_owned(),
        source: "denied".to_owned(),
    };
    assert_eq!(read.message(), "cannot read /etc/roused.toml: denied");
}

#[test]
fn integers_are_read_in_every_radix_and_up_to_64_bits() {
    for (written, expected) in [
        ("0x2A", 42),
        ("0o52", 42),
        ("0b101010", 42),
        ("+42", 42),
        ("4_2", 42),
        ("9223372036854775807", 9_223_372_036_854_775_807),
        ("18446744073709551615", 18_446_744_073_709_551_615),
    ] {
        let input = VALID.replace(
            "launchd_label = \"net.test.alpha\"",
            &format!("launchd_label = \"a\"\nidle_timeout_seconds = {written}"),
        );
        assert_eq!(
            accepted(&input).services()[0].idle_timeout_seconds(),
            expected,
            "{written}"
        );
    }
}

#[test]
fn a_service_may_be_an_array_of_its_fields() {
    let config = accepted(
        "listen = \"127.0.0.1:8080\"\nservices = [[\"a.test\", \"127.0.0.1:9001\", \"net.a\", 7, [\"/bin/true\"]]]\n",
    );
    let service = &config.services()[0];
    assert_eq!(service.host(), "a.test");
    assert_eq!(service.idle_timeout_seconds(), 7);
    assert_eq!(service.can_stop_command().unwrap(), ["/bin/true"]);
    assert!(error(
        "listen = \"127.0.0.1:8080\"\nservices = [[\"a.test\", \"127.0.0.1:9001\", \"net.a\", 7]]\n"
    )
    .contains("services"));
}

fn item(at: usize, contents: TomlContents) -> TomlItem {
    let misread = "invalid type: thing, expected unit".to_owned();
    let at = Span {
        start: at,
        end: at + 1,
    };
    TomlItem {
        at,
        value: TomlValue { misread, contents },
    }
}

fn text_item(at: usize, text: &str) -> TomlItem {
    item(at, TomlContents::Text(text.to_owned()))
}

fn entry(name: &str, item: TomlItem) -> TomlEntry {
    let name_at = Span {
        start: item.at.start + 100,
        end: item.at.end + 100,
    };
    TomlEntry {
        name: name.to_owned(),
        name_at,
        item,
    }
}

fn problem(root: &TomlItem) -> (usize, String) {
    match decode_config(root) {
        Ok(_) => panic!("decoded"),
        Err(error) => (error.at.start, error.message),
    }
}

#[test]
fn a_parsed_document_is_decoded_field_by_field() {
    let service = item(
        3,
        TomlContents::Table(vec![
            entry("host", text_item(4, "a.test")),
            entry("upstream", text_item(5, "127.0.0.1:9001")),
            entry("launchd_label", text_item(6, "net.a")),
            entry(
                "idle_timeout_seconds",
                item(7, TomlContents::Integer("2a".to_owned(), 16)),
            ),
        ]),
    );
    let document = item(
        0,
        TomlContents::Table(vec![
            entry("listen", text_item(1, "127.0.0.1:8080")),
            entry("services", item(2, TomlContents::Array(vec![service]))),
        ]),
    );
    let raw = decode_config(&document).unwrap_or_else(|_| panic!("not decoded"));
    assert_eq!(raw.listen, "127.0.0.1:8080");
    assert_eq!(raw.services[0].host, "a.test");
    assert_eq!(raw.services[0].idle_timeout_seconds, 42);
    assert!(raw.services[0].can_stop_command.is_none());

    assert_eq!(
        problem(&item(9, TomlContents::Other)),
        (9, "invalid type: thing, expected struct RawConfig".to_owned())
    );
    let early = vec![
        entry("area", item(1, TomlContents::Other)),
        entry("services", item(2, TomlContents::Other)),
    ];
    assert_eq!(
        problem(&item(0, TomlContents::Table(early))),
        (
            101,
            "unknown field `area`, expected `listen` or `services`".to_owned()
        )
    );
    let late = vec![
        entry("services", item(1, TomlContents::Other)),
        entry("zone", item(2, TomlContents::Other)),
    ];
    assert_eq!(
        problem(&item(0, TomlContents::Table(late))),
        (1, "invalid type: thing, expected a sequence".to_owned())
    );
    let short = vec![entry("listen", text_item(1, "127.0.0.1:8080"))];
    assert_eq!(
        problem(&item(7, TomlContents::Table(short))),
        (7, "missing field `services`".to_owned())
    );
}

/// The fields of a configuration as serde reads them.
struct ReadConfig;

struct ReadService;

struct Name(String);

struct NameVisitor(&'static [&'static str]);

struct ConfigVisitor;

struct ServiceVisitor;

const CONFIG_NAMES: &[&str] = &["listen", "services"];

const SERVICE_NAMES: &[&str] = &[
    "host",
    "upstream",
    "launchd_label",
    "idle_timeout_seconds",
    "can_stop_command",
];

impl<'de> Visitor<'de> for NameVisitor {
    type Value = Name;

    fn expecting(&self, formatter: &mut Formatter) -> std::fmt::Result {
        formatter.write_str("field identifier")
    }

    fn visit_str<E: Error>(self, name: &str) -> Result<Name, E> {
        if self.0.contains(&name) {
            Ok(Name(name.to_owned()))
        } else {
            Err(E::unknown_field(name, self.0))
        }
    }
}

impl<'de> DeserializeSeed<'de> for NameVisitor {
    type Value = Name;

    fn deserialize<D: Deserializer<'de>>(self, deserializer: D) -> Result<Name, D::Error> {
        deserializer.deserialize_identifier(self)
    }
}

impl<'de> Visitor<'de> for ConfigVisitor {
    type Value = ReadConfig;

    fn expecting(&self, formatter: &mut Formatter) -> std::fmt::Result {
        formatter.write_str("struct RawConfig")
    }

    fn visit_map<A: MapAccess<'de>>(self, mut map: A) -> Result<ReadConfig, A::Error> {
        let mut listen = false;
        let mut services = false;
        while let Some(name) = map.next_key_seed(NameVisitor(CONFIG_NAMES))? {
            if name.0 == "listen" {
                map.next_value::<String>()?;
                listen = true;
            } else {
                map.next_value::<Vec<ReadService>>()?;
                services = true;
            }
        }
        if !listen {
            return Err(A::Error::missing_field("listen"));
        }
        if !services {
            return Err(A::Error::missing_field("services"));
        }
        Ok(ReadConfig)
    }
}

impl<'de> Visitor<'de> for ServiceVisitor {
    type Value = ReadService;

    fn expecting(&self, formatter: &mut Formatter) -> std::fmt::Result {
        formatter.write_str("struct RawService")
    }

    fn visit_seq<A: SeqAccess<'de>>(self, mut items: A) -> Result<ReadService, A::Error> {
        let expected = &"struct RawService with 5 elements";
        for index in 0..3 {
            if items.next_element::<String>()?.is_none() {
                return Err(A::Error::invalid_length(index, expected));
            }
        }
        items.next_element::<u64>()?;
        match items.next_element::<Option<Vec<String>>>()? {
            Some(_) => Ok(ReadService),
            None => Err(A::Error::invalid_length(4, expected)),
        }
    }

    fn visit_map<A: MapAccess<'de>>(self, mut map: A) -> Result<ReadService, A::Error> {
        let mut seen: Vec<String> = Vec::new();
        while let Some(name) = map.next_key_seed(NameVisitor(SERVICE_NAMES))? {
            match name.0.as_str() {
                "idle_timeout_seconds" => {
                    map.next_value::<u64>()?;
                }
                "can_stop_command" => {
                    map.next_value::<Option<Vec<String>>>()?;
                }
                _ => {
                    map.next_value::<String>()?;
                }
            }
            seen.push(name.0);
        }
        for name in ["host", "upstream", "launchd_label"] {
            if !seen.iter().any(|other| other == name) {
                return Err(A::Error::missing_field(name));
            }
        }
        Ok(ReadService)
    }
}

impl<'de> Deserialize<'de> for ReadConfig {
    fn deserialize<D: Deserializer<'de>>(deserializer: D) -> Result<Self, D::Error> {
        deserializer.deserialize_struct("RawConfig", CONFIG_NAMES, ConfigVisitor)
    }
}

impl<'de> Deserialize<'de> for ReadService {
    fn deserialize<D: Deserializer<'de>>(deserializer: D) -> Result<Self, D::Error> {
        deserializer.deserialize_struct("RawService", SERVICE_NAMES, ServiceVisitor)
    }
}

#[test]
fn documents_are_read_and_refused_as_serde_does() {
    let mut inputs: Vec<String> = Vec::new();
    let values = [
        "1",
        "-1",
        "0",
        "-0",
        "+7",
        "0x2a",
        "0b101",
        "1_000",
        "9223372036854775807",
        "9223372036854775808",
        "18446744073709551615",
        "18446744073709551616",
        "-9223372036854775808",
        "-9223372036854775809",
        "340282366920938463463374607431768211455",
        "340282366920938463463374607431768211456",
        "1.5",
        "-0.0",
        "1e300",
        "1e999",
        "inf",
        "nan",
        "true",
        "false",
        "1979-05-27T07:32:00Z",
        "1979-05-27",
        "07:32:00",
        "\"text\"",
        "\"a \\\"quoted\\\" \\u00e9 \\n text\"",
        "\"\"\"\nmany\nlines\"\"\"",
        "[]",
        "[1]",
        "[\"a\"]",
        "[\"a\", 2]",
        "[[]]",
        "[\n  \"a\",\n  {}\n]",
        "{}",
        "{ a = 1 }",
    ];
    for value in values {
        inputs.push(format!("listen = {value}\n"));
        inputs.push(format!("services = {value}\n"));
        inputs.push(format!("\"é\" = 1\nservices = [{value}]\n"));
        inputs.push(format!("listen = \"é\"\nservices = [{value}]\n"));
        inputs.push(format!("services = {value}\nzone = {value}\n"));
        inputs.push(format!("area = {value}\nservices = {value}\n"));
        for name in SERVICE_NAMES {
            inputs.push(format!(
                "listen = \"x\"\n\n[[services]]\nhost = \"h\"\nupstream = \"u\"\nlaunchd_label = \"l\"\n[[services]]\n{name} = {value}\n"
            ));
            inputs.push(format!("services = [{{ {name} = {value}, zone = 1 }}]\n"));
            inputs.push(format!("services = [{{ area = 1, {name} = {value} }}]\n"));
        }
        for front in [
            "",
            "\"h\",",
            "\"h\", \"u\",",
            "\"h\", \"u\", \"l\",",
            "\"h\", \"u\", \"l\", 5,",
            "\"h\", \"u\", \"l\", 5, [],",
        ] {
            inputs.push(format!("services = [[{front} {value}]]\n"));
        }
    }
    for input in [
        "",
        "\n",
        "\n\n# nothing\n",
        "listen = \"x\"",
        "services = []",
        "\r\nlisten = \"x\"\r\n",
        "listen = \"x\"\nservices = [[]]",
        "[services]\nhost = \"h\"\n",
        "[[services]]\nhost = \"h\"\nlisten = \"x\"",
        "listen = \"x\"\n[[services]]\n[[services]]\n",
        "listen.port = 1\n",
        "\"quoted name\" = 1\n",
        "a.b.c = 1\n",
    ] {
        inputs.push(input.to_owned());
    }
    for input in &inputs {
        match (read_document(input), toml::from_str::<ReadConfig>(input)) {
            (Ok(_), Ok(_)) => {}
            (Err(DocumentError::Schema(_, shown)), Err(expected)) => {
                assert_eq!(shown, expected.to_string(), "{input}");
                assert_eq!(
                    error(input),
                    format!("invalid TOML configuration: {expected}")
                );
            }
            (Err(DocumentError::Syntax(_)), Err(expected)) => {
                assert_eq!(
                    error(input),
                    format!("invalid TOML configuration: {expected}")
                );
            }
            (Ok(_), Err(expected)) => panic!("accepted {input}: {expected}"),
            (Err(_), Ok(_)) => panic!("refused {input}"),
        }
    }
}

#[test]
fn a_refused_document_is_shown_with_its_place() {
    assert_eq!(
        error("listen = \"x\"\nservices = [{ host = 2 }]\n"),
        "invalid TOML configuration: TOML parse error at line 2, column 22\n  |\n2 | services = [{ host = 2 }]\n  |                      ^\ninvalid type: integer `2`, expected a string\n"
    );
    assert_eq!(
        error("area = 1\n"),
        "invalid TOML configuration: TOML parse error at line 1, column 1\n  |\n1 | area = 1\n  | ^^^^\nunknown field `area`, expected `listen` or `services`\n"
    );
}

#[test]
fn a_syntax_error_is_shown_as_the_parser_shows_it() {
    for input in ["listen = [\n", "= 1", "a = 1\na = 2\n", "a = \"\u{7f}\""] {
        let shown = toml::de::DeTable::parse(input).unwrap_err().to_string();
        assert_eq!(error(input), format!("invalid TOML configuration: {shown}"));
    }
    assert!(error("listen = [\n").contains("line 1"));
}

#[test]
fn a_document_is_read_before_it_is_validated() {
    let raw = read_document(VALID).unwrap_or_else(|_| panic!("not read"));
    assert_eq!(raw.listen, "127.0.0.1:8080");
    assert_eq!(raw.services[0].host, "Alpha.Apps.Test.");
    assert!(matches!(
        read_document("= 1"),
        Err(DocumentError::Syntax(_))
    ));
    assert!(matches!(
        read_document("a = 1"),
        Err(DocumentError::Schema(error, _)) if error.at == Span { start: 0, end: 1 }
    ));
}

#[test]
fn the_starter_configuration_is_valid() {
    let config = match Config::from_raw(RawConfig::starter()) {
        Ok(config) => config,
        Err(error) => panic!("{}", error.message()),
    };
    assert_eq!(config.services().len(), 2);
    assert_eq!(config.services()[0].host(), "first.apps.home.arpa");
    assert_eq!(config.services()[1].host(), "second.apps.home.arpa");
}

#[test]
fn labels_hold_no_slash_space_or_control_character() {
    for label in ["a", "net.example.roused", "&<>\"'", "é"] {
        assert!(valid_launchd_label(label), "{label:?}");
    }
    for label in [
        "", "a/b", "a b", "a\tb", "a\u{0}b", "a\u{7f}", "a\u{80}", "a\u{9f}", "a\u{a0}",
        "a\u{1680}", "a\u{2000}", "a\u{200a}", "a\u{2028}", "a\u{2029}", "a\u{202f}", "a\u{205f}",
        "a\u{3000}",
    ] {
        assert!(!valid_launchd_label(label), "{label:?}");
    }
    for code in 0..=0x10_ffffu32 {
        if let Some(c) = char::from_u32(code) {
            let expected = c != '/' && !c.is_control() && !c.is_whitespace();
            assert_eq!(valid_launchd_label(&c.to_string()), expected, "{code:x}");
        }
    }
}

#[test]
fn socket_addresses_are_read_as_numbers() {
    for (text, ip, port, scope_id) in [
        ("127.0.0.1:80", IpAddress::V4(0x7f000001), 80, 0),
        ("1.2.3.4:0", IpAddress::V4(0x1020304), 0, 0),
        ("255.255.255.255:65535", IpAddress::V4(0xffffffff), 65535, 0),
        ("1.2.3.4:00080", IpAddress::V4(0x1020304), 80, 0),
        ("[::1]:80", IpAddress::V6(0x1), 80, 0),
        ("[::]:80", IpAddress::V6(0x0), 80, 0),
        ("[1:2:3:4:5:6:7:8]:80", IpAddress::V6(0x10002000300040005000600070008), 80, 0),
        ("[1:2:3:4:5:6:7::]:80", IpAddress::V6(0x10002000300040005000600070000), 80, 0),
        ("[::2:3:4:5:6:7:8]:80", IpAddress::V6(0x2000300040005000600070008), 80, 0),
        ("[aBcD::]:80", IpAddress::V6(0xabcd0000000000000000000000000000), 80, 0),
        ("[::ffff:1.2.3.4]:80", IpAddress::V6(0xffff01020304), 80, 0),
        ("[1:2:3:4:5:6:1.2.3.4]:80", IpAddress::V6(0x10002000300040005000601020304), 80, 0),
        ("[fe80::1%3]:80", IpAddress::V6(0xfe800000000000000000000000000001), 80, 3),
        ("[fe80::1%4294967295]:80", IpAddress::V6(0xfe800000000000000000000000000001), 80, 4294967295),
    ] {
        assert_eq!(
            parse_socket_address(text),
            Some(SocketAddress { ip, port, scope_id }),
            "{text:?}"
        );
    }
    for text in [
        "1.2.3.4:65536",
        "01.2.3.4:80",
        "1.2.3.256:80",
        "1.2.3:80",
        "1.2.3.4.5:80",
        "1.2.3.4",
        "1.2.3.4:",
        "1.2.3.4:+80",
        ":80",
        "",
        "[1:2:3:4:5:6:7:8:9]:80",
        "[1:2:3:4::5:6:7:8]:80",
        "[1::2::3]:80",
        "[:::]:80",
        "[1:::2]:80",
        "[12345::]:80",
        "[1:2:3:4:5:6:7:1.2.3.4]:80",
        "[1.2.3.4::]:80",
        "[::1.2.3.4:5]:80",
        "[fe80::1%]:80",
        "[fe80::1%4294967296]:80",
        "[::1]",
        "[::1]80",
        "[::1]:",
        "::1:80",
        "[]:80",
        "[1]:80",
        "[g::]:80",
        "127.0.0.1:80 ",
    ] {
        assert_eq!(parse_socket_address(text), None, "{text:?}");
    }
}

#[test]
fn host_names_are_bounded_and_in_lower_case() {
    let long_label = "a".repeat(63);
    assert_eq!(
        normalize_config_host(&long_label.to_uppercase()).unwrap(),
        long_label
    );
    assert!(normalize_config_host(&"a".repeat(64)).is_none());
    let name = format!("{long_label}.{long_label}.{long_label}.{}", "a".repeat(61));
    assert_eq!(name.len(), 253);
    assert_eq!(normalize_config_host(&name).unwrap(), name);
    assert_eq!(normalize_config_host(&format!("{name}.")).unwrap(), name);
    assert!(normalize_config_host(&format!("{name}a")).is_none());
    for host in [
        "", ".", "..", "a..", "-a", "a-", "a.-b", "1.2.3.4", "a:80", "a/b", "a?b", "a%20b", "a b",
        "[::1]", "a:[x]", "a#",
    ] {
        assert!(normalize_config_host(host).is_none(), "{host}");
    }
    for host in ["1.2.3", "1.2.3.256", "a-b", "01.2.3.4"] {
        assert_eq!(normalize_config_host(host).unwrap(), host);
    }
    assert!(normalize_request_host("a.test:[x]:8080", 8080).is_none());
    assert_eq!(
        normalize_request_host("a.test:08080", 8080).unwrap(),
        "a.test"
    );
    assert_eq!(
        normalize_request_host("a.test:+8080", 8080).unwrap(),
        "a.test"
    );
}

#[test]
fn normal_hosts_are_found_in_every_form() {
    let name = normalize_config_host("Service.Home.Arpa.").unwrap();
    assert_eq!(name, "service.home.arpa");
    for form in [
        "service.home.arpa",
        "SERVICE.home.arpa.",
        "service.home.arpa:1024",
        "service.HOME.arpa.:1024",
    ] {
        assert_eq!(normalize_request_host(form, 1024).unwrap(), name);
    }
    assert!(normalize_request_host("service.home.arpa:1025", 1024).is_none());
    assert_eq!(normalize_config_host(&name).unwrap(), name);
}
