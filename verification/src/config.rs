//! The validated configuration.
use vstd::prelude::*;

use crate::address::{self, parse_socket_address, SocketAddress};
use crate::document::{self, read_document, DocumentError, RawConfig, RawService};
use crate::host::{self, normalize_config_host, normalize_request_host};
use crate::text::{self, push_decimal};

verus! {

/// `char::is_whitespace`: the characters with the Unicode property White_Space.
pub assume_specification[ char::is_whitespace ](character: char) -> (r: bool)
    ensures
        r == is_whitespace_char(character),
;

/// `char::is_control`: the characters of the Unicode category Cc.
pub assume_specification[ char::is_control ](character: char) -> (r: bool)
    ensures
        r == is_control_char(character),
;

/// The characters with the Unicode property White_Space.
pub open spec fn is_whitespace_char(c: char) -> bool {
    let n = c as u32;
    0x9 <= n <= 0xd || n == 0x20 || n == 0x85 || n == 0xa0 || n == 0x1680 || 0x2000 <= n <= 0x200a
        || n == 0x2028 || n == 0x2029 || n == 0x202f || n == 0x205f || n == 0x3000
}

/// The characters of the Unicode category Cc.
pub open spec fn is_control_char(c: char) -> bool {
    let n = c as u32;
    n <= 0x1f || 0x7f <= n <= 0x9f
}

/// A label that launchd can be asked for: not empty, and without slashes, white
/// space and control characters.
pub open spec fn is_launchd_label(s: Seq<char>) -> bool {
    s.len() > 0 && forall|i: int|
        0 <= i < s.len() ==> #[trigger] s[i] != '/' && !is_control_char(s[i])
            && !is_whitespace_char(s[i])
}

/// A path that starts at the root.
pub open spec fn is_absolute(s: Seq<char>) -> bool {
    s.len() > 0 && s[0] == '/'
}

/// A service that requests can be routed to.
#[derive(Debug)]
pub struct ServiceConfig {
    host: String,
    upstream: SocketAddress,
    launchd_label: String,
    idle_timeout_seconds: u64,
    can_stop_command: Option<Vec<String>>,
}

/// The contents of a `ServiceConfig`.
#[verifier::ext_equal]
pub struct ServiceView {
    pub host: Seq<char>,
    pub upstream: SocketAddress,
    pub launchd_label: Seq<char>,
    pub idle_timeout_seconds: u64,
    pub can_stop_command: Option<Seq<Seq<char>>>,
}

/// A configuration that has passed validation as a whole.
#[derive(Debug)]
pub struct Config {
    listen: SocketAddress,
    services: Vec<ServiceConfig>,
}

/// The contents of a `Config`, the services in the order of their hosts.
#[verifier::ext_equal]
pub struct ConfigView {
    pub listen: SocketAddress,
    pub services: Seq<ServiceView>,
}

impl View for ServiceConfig {
    type V = ServiceView;

    closed spec fn view(&self) -> ServiceView {
        ServiceView {
            host: self.host@,
            upstream: self.upstream,
            launchd_label: self.launchd_label@,
            idle_timeout_seconds: self.idle_timeout_seconds,
            can_stop_command: document::command_view(self.can_stop_command),
        }
    }
}

/// The contents of a list of services.
pub open spec fn service_config_views(services: Seq<ServiceConfig>) -> Seq<ServiceView> {
    services.map_values(|service: ServiceConfig| service@)
}

impl View for Config {
    type V = ConfigView;

    closed spec fn view(&self) -> ConfigView {
        ConfigView { listen: self.listen, services: service_config_views(self.services@) }
    }
}

/// Why there is no configuration.
#[derive(Debug)]
pub enum ConfigError {
    /// The file could not be read.
    Read { path: String, source: String },
    /// The file holds no TOML, or not the fields of a configuration.
    Parse(DocumentError),
    /// The configuration breaks a rule.
    Invalid(String),
}

/// A message about one service, which are numbered from one.
pub open spec fn about_service(number: nat, rest: Seq<char>) -> Seq<char> {
    "service "@ + text::decimal(number) + rest
}

/// What is wrong with a stop check, if anything.
pub open spec fn command_problem(command: Option<Seq<Seq<char>>>, number: nat) -> Option<
    Seq<char>,
> {
    match command {
        None => None,
        Some(command) => if command.len() == 0 {
            Some(about_service(number, " can_stop_command must not be empty"@))
        } else if !is_absolute(command[0]) {
            Some(
                about_service(number, " can_stop_command executable must be an absolute path"@),
            )
        } else {
            None
        },
    }
}

pub open spec fn host_taken(services: Seq<ServiceView>, host: Seq<char>) -> bool {
    exists|i: int| 0 <= i < services.len() && #[trigger] services[i].host == host
}

pub open spec fn label_taken(services: Seq<ServiceView>, label: Seq<char>) -> bool {
    exists|i: int| 0 <= i < services.len() && #[trigger] services[i].launchd_label == label
}

pub open spec fn upstream_taken(services: Seq<ServiceView>, upstream: SocketAddress) -> bool {
    exists|i: int| 0 <= i < services.len() && #[trigger] services[i].upstream == upstream
}

/// A service after those before it in the document: what it is, or what is
/// wrong with it.
pub open spec fn checked_service(
    raw: document::RawServiceView,
    number: nat,
    earlier: Seq<ServiceView>,
) -> Result<ServiceView, Seq<char>> {
    let host = host::normalized_authority(raw.host, None);
    let upstream = address::socket_address(raw.upstream);
    if host is None {
        Err(about_service(number, " host must be an ASCII DNS hostname without a port"@))
    } else if upstream is None {
        Err(about_service(number, " upstream must be a literal IP socket address"@))
    } else if !address::is_loopback_address(upstream->0.ip) || upstream->0.port == 0 {
        Err(
            about_service(
                number,
                " upstream must be a loopback address with a nonzero port"@,
            ),
        )
    } else if !is_launchd_label(raw.launchd_label) {
        Err(about_service(number, " launchd_label is invalid"@))
    } else if raw.idle_timeout_seconds == 0 {
        Err(about_service(number, " idle_timeout_seconds must be greater than zero"@))
    } else if command_problem(raw.can_stop_command, number) is Some {
        Err(command_problem(raw.can_stop_command, number)->0)
    } else if host_taken(earlier, host->0) {
        Err(about_service(number, " duplicates normalized host "@ + host->0))
    } else if label_taken(earlier, raw.launchd_label) {
        Err(about_service(number, " duplicates a launchd_label"@))
    } else if upstream_taken(earlier, upstream->0) {
        Err(about_service(number, " duplicates an upstream"@))
    } else {
        Ok(
            ServiceView {
                host: host->0,
                upstream: upstream->0,
                launchd_label: raw.launchd_label,
                idle_timeout_seconds: raw.idle_timeout_seconds,
                can_stop_command: raw.can_stop_command,
            },
        )
    }
}

/// All services in the order of the document, or what is wrong with the first
/// that is not in order.
pub open spec fn checked_services(raws: Seq<document::RawServiceView>) -> Result<
    Seq<ServiceView>,
    Seq<char>,
>
    decreases raws.len(),
{
    if raws.len() == 0 {
        Ok(Seq::<ServiceView>::empty())
    } else {
        match checked_services(raws.drop_last()) {
            Err(message) => Err(message),
            Ok(earlier) => match checked_service(raws.last(), raws.len(), earlier) {
                Err(message) => Err(message),
                Ok(service) => Ok(earlier.push(service)),
            },
        }
    }
}

/// The listener and the services in the order of the document, or the first
/// thing that is wrong.
pub open spec fn checked_config(raw: document::RawConfigView) -> Result<
    (SocketAddress, Seq<ServiceView>),
    Seq<char>,
> {
    let listen = address::socket_address(raw.listen);
    if listen is None {
        Err("listen must be a literal IP socket address"@)
    } else if listen->0.port < 1_024 {
        Err("listen must use a fixed unprivileged port (1024 or greater)"@)
    } else if raw.services.len() == 0 {
        Err("at least one service must be configured"@)
    } else {
        match checked_services(raw.services) {
            Err(message) => Err(message),
            Ok(services) => Ok((listen->0, services)),
        }
    }
}

/// Whether a text comes before another, character by character.
pub open spec fn text_less(a: Seq<char>, b: Seq<char>) -> bool
    decreases a.len(),
{
    if b.len() == 0 {
        false
    } else if a.len() == 0 {
        true
    } else if a[0] == b[0] {
        text_less(a.skip(1), b.skip(1))
    } else {
        a[0] < b[0]
    }
}

/// Whether the services stand in the order of their hosts.
pub open spec fn hosts_ascend(services: Seq<ServiceView>) -> bool {
    forall|i: int, j: int|
        0 <= i < j < services.len() ==> text_less(
            (#[trigger] services[i]).host,
            (#[trigger] services[j]).host,
        )
}

/// A configuration with the listener and the services that were checked.
pub open spec fn is_config_of(
    config: ConfigView,
    checked: (SocketAddress, Seq<ServiceView>),
) -> bool {
    &&& config.listen == checked.0
    &&& hosts_ascend(config.services)
    &&& config.services.len() == checked.1.len()
    &&& forall|service: ServiceView|
        config.services.contains(service) <==> #[trigger] checked.1.contains(service)
}

/// What validation promises of a service.
pub open spec fn valid_service(service: ServiceView) -> bool {
    &&& host::valid_dns_name(service.host)
    &&& text::lower(service.host) == service.host
    &&& address::is_loopback_address(service.upstream.ip)
    &&& service.upstream.port != 0
    &&& is_launchd_label(service.launchd_label)
    &&& service.idle_timeout_seconds > 0
    &&& service.can_stop_command matches Some(command) ==> command.len() > 0 && is_absolute(
        command[0],
    )
}

/// Whether no host, label or upstream occurs twice.
pub open spec fn services_distinct(services: Seq<ServiceView>) -> bool {
    forall|i: int, j: int|
        0 <= i < j < services.len() ==> {
            &&& (#[trigger] services[i]).host != (#[trigger] services[j]).host
            &&& services[i].launchd_label != services[j].launchd_label
            &&& services[i].upstream != services[j].upstream
        }
}

/// What validation promises of a configuration.
pub open spec fn valid_config(config: ConfigView) -> bool {
    &&& config.listen.port >= 1_024
    &&& config.services.len() > 0
    &&& hosts_ascend(config.services)
    &&& services_distinct(config.services)
    &&& forall|i: int|
        0 <= i < config.services.len() ==> valid_service(#[trigger] config.services[i])
}

/// Appends what a message about a service starts with.
fn service_message(number: u64, rest: &str) -> (message: String)
    ensures
        message@ == about_service(number as nat, rest@),
{
    let mut message = "service ".to_owned();
    push_decimal(&mut message, number);
    message.push_str(rest);
    message
}

/// Whether a text can be a launchd label.
pub fn valid_launchd_label(label: &str) -> (r: bool)
    ensures
        r == is_launchd_label(label@),
{
    let chars = text::chars_of(label);
    if chars.len() == 0 {
        return false;
    }
    for i in 0..chars.len()
        invariant
            chars@ == label@,
            forall|j: int|
                0 <= j < i ==> #[trigger] chars@[j] != '/' && !is_control_char(chars@[j])
                    && !is_whitespace_char(chars@[j]),
    {
        if chars[i] == '/' || chars[i].is_control() || chars[i].is_whitespace() {
            return false;
        }
    }
    true
}

/// Checks that a stop check, if there is one, names an executable by an absolute
/// path.
fn validate_command(command: &Option<Vec<String>>, number: u64) -> (r: Result<(), ConfigError>)
    ensures
        match r {
            Ok(_) => command_problem(
                document::command_view(*command),
                number as nat,
            ) is None,
            Err(ConfigError::Invalid(message)) => command_problem(
                document::command_view(*command),
                number as nat,
            ) == Some(message@),
            Err(_) => false,
        },
{
    match command {
        None => Ok(()),
        Some(command) => {
            if command.len() == 0 {
                return Err(
                    ConfigError::Invalid(
                        service_message(number, " can_stop_command must not be empty"),
                    ),
                );
            }
            let executable = text::chars_of(command[0].as_str());
            if executable.len() == 0 || executable[0] != '/' {
                return Err(
                    ConfigError::Invalid(
                        service_message(
                            number,
                            " can_stop_command executable must be an absolute path",
                        ),
                    ),
                );
            }
            Ok(())
        },
    }
}

proof fn lemma_less_total(a: Seq<char>, b: Seq<char>)
    requires
        a != b,
    ensures
        text_less(a, b) || text_less(b, a),
    decreases a.len(),
{
    if a.len() > 0 && b.len() > 0 {
        if a[0] == b[0] {
            if a.skip(1) == b.skip(1) {
                assert(a =~= seq![a[0]] + a.skip(1));
                assert(b =~= seq![b[0]] + b.skip(1));
            }
            lemma_less_total(a.skip(1), b.skip(1));
        }
    } else {
        assert(a.len() == 0 && b.len() == 0 ==> a =~= b);
    }
}

proof fn lemma_less_transitive(a: Seq<char>, b: Seq<char>, c: Seq<char>)
    requires
        text_less(a, b),
        text_less(b, c),
    ensures
        text_less(a, c),
    decreases a.len(),
{
    if a.len() > 0 {
        if a[0] == b[0] && b[0] == c[0] {
            lemma_less_transitive(a.skip(1), b.skip(1), c.skip(1));
        }
    }
}

proof fn lemma_less_irreflexive(a: Seq<char>)
    ensures
        !text_less(a, a),
    decreases a.len(),
{
    if a.len() > 0 {
        lemma_less_irreflexive(a.skip(1));
    }
}

fn text_is_less(a: &str, b: &str) -> (r: bool)
    ensures
        r == text_less(a@, b@),
{
    let left = text::chars_of(a);
    let right = text::chars_of(b);
    let mut i: usize = 0;
    assert(a@.skip(0) =~= a@);
    assert(b@.skip(0) =~= b@);
    while i < left.len() && i < right.len() && left[i] == right[i]
        invariant
            left@ == a@,
            right@ == b@,
            i <= left@.len(),
            i <= right@.len(),
            text_less(a@, b@) == text_less(a@.skip(i as int), b@.skip(i as int)),
        decreases left@.len() - i,
    {
        assert(a@.skip(i as int).skip(1) =~= a@.skip(i + 1));
        assert(b@.skip(i as int).skip(1) =~= b@.skip(i + 1));
        i = i + 1;
    }
    if i >= right.len() {
        false
    } else if i >= left.len() {
        true
    } else {
        left[i] < right[i]
    }
}

/// Puts a service in its place in the order of the hosts.
fn insert_service(list: &mut Vec<ServiceConfig>, service: ServiceConfig)
    requires
        hosts_ascend(service_config_views(old(list)@)),
        !host_taken(service_config_views(old(list)@), service@.host),
    ensures
        hosts_ascend(service_config_views(final(list)@)),
        final(list)@.len() == old(list)@.len() + 1,
        forall|other: ServiceView| #[trigger]
            service_config_views(final(list)@).contains(other) <==> service_config_views(
                old(list)@,
            ).contains(other) || other == service@,
{
    let ghost before = service_config_views(list@);
    let mut place: usize = 0;
    while place < list.len() && text_is_less(list[place].host.as_str(), service.host.as_str())
        invariant
            place <= list@.len(),
            before == service_config_views(list@),
            forall|i: int| 0 <= i < place ==> text_less((#[trigger] before[i]).host, service@.host),
        decreases list@.len() - place,
    {
        assert(before[place as int] == list@[place as int]@);
        place = place + 1;
    }
    proof {
        if place < list@.len() {
            assert(before[place as int] == list@[place as int]@);
            lemma_less_total(before[place as int].host, service@.host);
            assert forall|j: int| place <= j < before.len() implies text_less(
                service@.host,
                (#[trigger] before[j]).host,
            ) by {
                if j > place {
                    lemma_less_transitive(
                        service@.host,
                        before[place as int].host,
                        before[j].host,
                    );
                }
            }
        }
    }
    list.insert(place, service);
    let ghost after = service_config_views(list@);
    proof {
        assert(after =~= before.insert(place as int, service@));
        assert forall|i: int, j: int| 0 <= i < j < after.len() implies text_less(
            (#[trigger] after[i]).host,
            (#[trigger] after[j]).host,
        ) by {
            if i < place && j > place {
                assert(after[i] == before[i] && after[j] == before[j - 1]);
            } else if i < place && j < place {
                assert(after[i] == before[i] && after[j] == before[j]);
            } else if i > place {
                assert(after[i] == before[i - 1] && after[j] == before[j - 1]);
            } else if i == place {
                assert(after[j] == before[j - 1]);
            } else {
                assert(after[i] == before[i]);
            }
        }
        assert forall|other: ServiceView| #[trigger] after.contains(other) <==> before.contains(
            other,
        ) || other == service@ by {
            if before.contains(other) {
                let i = choose|i: int| 0 <= i < before.len() && before[i] == other;
                if i < place {
                    assert(after[i] == other);
                } else {
                    assert(after[i + 1] == other);
                }
            }
            if other == service@ {
                assert(after[place as int] == other);
            }
            if after.contains(other) {
                let i = choose|i: int| 0 <= i < after.len() && after[i] == other;
                if i < place {
                    assert(before[i] == other);
                } else if i > place {
                    assert(before[i - 1] == other);
                }
            }
        }
    }
}

fn is_host_taken(services: &Vec<ServiceConfig>, host: &str) -> (r: bool)
    ensures
        r == host_taken(service_config_views(services@), host@),
{
    let ghost views = service_config_views(services@);
    for i in 0..services.len()
        invariant
            views == service_config_views(services@),
            forall|j: int| 0 <= j < i ==> (#[trigger] views[j]).host != host@,
    {
        assert(views[i as int] == services@[i as int]@);
        if *services[i].host.as_str() == *host {
            assert(views[i as int].host == host@);
            return true;
        }
    }
    false
}

fn is_label_taken(services: &Vec<ServiceConfig>, label: &str) -> (r: bool)
    ensures
        r == label_taken(service_config_views(services@), label@),
{
    let ghost views = service_config_views(services@);
    for i in 0..services.len()
        invariant
            views == service_config_views(services@),
            forall|j: int| 0 <= j < i ==> (#[trigger] views[j]).launchd_label != label@,
    {
        assert(views[i as int] == services@[i as int]@);
        if *services[i].launchd_label.as_str() == *label {
            assert(views[i as int].launchd_label == label@);
            return true;
        }
    }
    false
}

fn is_upstream_taken(services: &Vec<ServiceConfig>, upstream: SocketAddress) -> (r: bool)
    ensures
        r == upstream_taken(service_config_views(services@), upstream),
{
    let ghost views = service_config_views(services@);
    for i in 0..services.len()
        invariant
            views == service_config_views(services@),
            forall|j: int| 0 <= j < i ==> (#[trigger] views[j]).upstream != upstream,
    {
        assert(views[i as int] == services@[i as int]@);
        if services[i].upstream == upstream {
            assert(views[i as int].upstream == upstream);
            return true;
        }
    }
    false
}

/// Validates one service against the rules and against the services before it.
fn check_service(raw: RawService, number: u64, earlier: &Vec<ServiceConfig>) -> (r: Result<
    ServiceConfig,
    ConfigError,
>)
    ensures
        match r {
            Ok(service) => checked_service(
                raw@,
                number as nat,
                service_config_views(earlier@),
            ) == Ok::<_, Seq<char>>(service@),
            Err(ConfigError::Invalid(message)) => checked_service(
                raw@,
                number as nat,
                service_config_views(earlier@),
            ) == Err::<ServiceView, _>(message@),
            Err(_) => false,
        },
{
    let host = match normalize_config_host(raw.host.as_str()) {
        Some(host) => host,
        None => {
            return Err(
                ConfigError::Invalid(
                    service_message(
                        number,
                        " host must be an ASCII DNS hostname without a port",
                    ),
                ),
            );
        },
    };
    let upstream = match parse_socket_address(raw.upstream.as_str()) {
        Some(upstream) => upstream,
        None => {
            return Err(
                ConfigError::Invalid(
                    service_message(number, " upstream must be a literal IP socket address"),
                ),
            );
        },
    };
    if !upstream.ip.is_loopback() || upstream.port == 0 {
        return Err(
            ConfigError::Invalid(
                service_message(
                    number,
                    " upstream must be a loopback address with a nonzero port",
                ),
            ),
        );
    }
    if !valid_launchd_label(raw.launchd_label.as_str()) {
        return Err(ConfigError::Invalid(service_message(number, " launchd_label is invalid")));
    }
    if raw.idle_timeout_seconds == 0 {
        return Err(
            ConfigError::Invalid(
                service_message(number, " idle_timeout_seconds must be greater than zero"),
            ),
        );
    }
    if let Err(error) = validate_command(&raw.can_stop_command, number) {
        return Err(error);
    }
    if is_host_taken(earlier, host.as_str()) {
        let mut rest = " duplicates normalized host ".to_owned();
        rest.push_str(host.as_str());
        return Err(ConfigError::Invalid(service_message(number, rest.as_str())));
    }
    if is_label_taken(earlier, raw.launchd_label.as_str()) {
        return Err(ConfigError::Invalid(service_message(number, " duplicates a launchd_label")));
    }
    if is_upstream_taken(earlier, upstream) {
        return Err(ConfigError::Invalid(service_message(number, " duplicates an upstream")));
    }
    Ok(
        ServiceConfig {
            host,
            upstream,
            launchd_label: raw.launchd_label,
            idle_timeout_seconds: raw.idle_timeout_seconds,
            can_stop_command: raw.can_stop_command,
        },
    )
}

proof fn lemma_problem_stays(raws: Seq<document::RawServiceView>, n: int)
    requires
        0 <= n <= raws.len(),
        checked_services(raws.take(n)) is Err,
    ensures
        checked_services(raws) == checked_services(raws.take(n)),
    decreases raws.len(),
{
    if n == raws.len() {
        assert(raws.take(n) =~= raws);
    } else {
        assert(raws.drop_last().take(n) =~= raws.take(n));
        lemma_problem_stays(raws.drop_last(), n);
    }
}

/// Services that pass one after the other are each valid and all distinct.
proof fn lemma_checked_services(raws: Seq<document::RawServiceView>)
    ensures
        checked_services(raws) matches Ok(services) ==> {
            &&& services.len() == raws.len()
            &&& services_distinct(services)
            &&& forall|i: int| 0 <= i < services.len() ==> valid_service(#[trigger] services[i])
        },
    decreases raws.len(),
{
    if raws.len() > 0 {
        lemma_checked_services(raws.drop_last());
        if let Ok(services) = checked_services(raws) {
            let raw = raws.last();
            let earlier = checked_services(raws.drop_last())->Ok_0;
            let last = services.last();
            host::law_host_normal_form_is_stable(raw.host, last.host, None, None);
            assert(valid_service(last));
            assert forall|i: int| 0 <= i < services.len() implies valid_service(
                #[trigger] services[i],
            ) by {
                if i < earlier.len() {
                    assert(services[i] == earlier[i]);
                }
            }
            assert forall|i: int, j: int| 0 <= i < j < services.len() implies {
                &&& (#[trigger] services[i]).host != (#[trigger] services[j]).host
                &&& services[i].launchd_label != services[j].launchd_label
                &&& services[i].upstream != services[j].upstream
            } by {
                assert(services[i] == earlier[i]);
                if j < earlier.len() {
                    assert(services[j] == earlier[j]);
                }
            }
        }
    }
}

/// What is accepted is what is written: service by service the normalised host, the
/// address that the upstream spells, and the other fields unchanged. So one service
/// out of order rejects all of them.
pub proof fn law_accepted_services_are_as_written(
    raws: Seq<document::RawServiceView>,
    services: Seq<ServiceView>,
)
    requires
        checked_services(raws) == Ok::<_, Seq<char>>(services),
    ensures
        services.len() == raws.len(),
        forall|i: int|
            0 <= i < raws.len() ==> {
                &&& host::normalized_authority(raws[i].host, None) == Some(
                    (#[trigger] services[i]).host,
                )
                &&& address::socket_address(raws[i].upstream) == Some(services[i].upstream)
                &&& services[i].launchd_label == raws[i].launchd_label
                &&& services[i].idle_timeout_seconds == raws[i].idle_timeout_seconds
                &&& services[i].can_stop_command == raws[i].can_stop_command
            },
    decreases raws.len(),
{
    if raws.len() > 0 {
        let earlier = checked_services(raws.drop_last())->Ok_0;
        law_accepted_services_are_as_written(raws.drop_last(), earlier);
        assert forall|i: int| 0 <= i < raws.len() implies {
            &&& host::normalized_authority(raws[i].host, None) == Some(
                (#[trigger] services[i]).host,
            )
            &&& address::socket_address(raws[i].upstream) == Some(services[i].upstream)
            &&& services[i].launchd_label == raws[i].launchd_label
            &&& services[i].idle_timeout_seconds == raws[i].idle_timeout_seconds
            &&& services[i].can_stop_command == raws[i].can_stop_command
        } by {
            if i < raws.len() - 1 {
                assert(services[i] == earlier[i]);
                assert(raws.drop_last()[i] == raws[i]);
            }
        }
    }
}

/// A configuration of valid, distinct services is valid.
proof fn lemma_config_is_valid(config: ConfigView, checked: (SocketAddress, Seq<ServiceView>))
    requires
        is_config_of(config, checked),
        checked.0.port >= 1_024,
        checked.1.len() > 0,
        services_distinct(checked.1),
        forall|i: int| 0 <= i < checked.1.len() ==> valid_service(#[trigger] checked.1[i]),
    ensures
        valid_config(config),
{
    let services = config.services;
    assert forall|i: int| 0 <= i < services.len() implies valid_service(#[trigger] services[i])
        && checked.1.contains(services[i]) by {
        assert(services.contains(services[i]));
        assert(checked.1.contains(services[i]));
    }
    assert forall|i: int, j: int| 0 <= i < j < services.len() implies {
        &&& (#[trigger] services[i]).host != (#[trigger] services[j]).host
        &&& services[i].launchd_label != services[j].launchd_label
        &&& services[i].upstream != services[j].upstream
    } by {
        lemma_less_irreflexive(services[i].host);
        assert(checked.1.contains(services[i]));
        assert(checked.1.contains(services[j]));
        let a = choose|a: int| 0 <= a < checked.1.len() && checked.1[a] == services[i];
        let b = choose|b: int| 0 <= b < checked.1.len() && checked.1[b] == services[j];
        assert(a != b);
        if a < b {
            assert(checked.1[a].host != checked.1[b].host);
        } else {
            assert(checked.1[b].host != checked.1[a].host);
        }
    }
}

/// Puts checked services in the order of their hosts.
fn order_services(list: Vec<ServiceConfig>) -> (sorted: Vec<ServiceConfig>)
    requires
        services_distinct(service_config_views(list@)),
    ensures
        hosts_ascend(service_config_views(sorted@)),
        sorted@.len() == list@.len(),
        forall|service: ServiceView| #[trigger]
            service_config_views(sorted@).contains(service) <==> service_config_views(
                list@,
            ).contains(service),
{
    let ghost all = service_config_views(list@);
    let mut rest = list;
    let mut sorted: Vec<ServiceConfig> = Vec::new();
    while rest.len() > 0
        invariant
            services_distinct(all),
            rest@.len() + sorted@.len() == all.len(),
            service_config_views(rest@) == all.take(rest@.len() as int),
            hosts_ascend(service_config_views(sorted@)),
            forall|service: ServiceView| #[trigger]
                service_config_views(sorted@).contains(service) <==> all.skip(
                    rest@.len() as int,
                ).contains(service),
        decreases rest@.len(),
    {
        let ghost n = rest@.len() as int;
        let ghost placed = service_config_views(sorted@);
        if let Some(service) = rest.pop() {
            assert(service_config_views(rest@) =~= all.take(n - 1));
            assert(all[n - 1] == service@) by {
                assert(all.take(n)[n - 1] == all[n - 1]);
            }
            assert(!host_taken(placed, service@.host)) by {
                if host_taken(placed, service@.host) {
                    let i = choose|i: int|
                        0 <= i < placed.len() && #[trigger] placed[i].host == service@.host;
                    assert(placed.contains(placed[i]));
                    assert(all.skip(n).contains(placed[i]));
                    let k = choose|k: int|
                        0 <= k < all.skip(n).len() && #[trigger] all.skip(n)[k] == placed[i];
                    assert(all[n + k] == placed[i]);
                    assert(all[n - 1].host != all[n + k].host);
                }
            }
            insert_service(&mut sorted, service);
            assert(all.skip(n - 1) =~= seq![service@] + all.skip(n));
            assert forall|other: ServiceView| #[trigger]
                service_config_views(sorted@).contains(other) <==> all.skip(n - 1).contains(
                    other,
                ) by {
                if all.skip(n - 1).contains(other) {
                    let k = choose|k: int|
                        0 <= k < all.skip(n - 1).len() && #[trigger] all.skip(n - 1)[k] == other;
                    if k > 0 {
                        assert(all.skip(n)[k - 1] == other);
                    }
                }
                if all.skip(n).contains(other) {
                    let k = choose|k: int|
                        0 <= k < all.skip(n).len() && #[trigger] all.skip(n)[k] == other;
                    assert(all.skip(n - 1)[k + 1] == other);
                }
                if other == service@ {
                    assert(all.skip(n - 1)[0] == other);
                }
                assert(placed.contains(other) <==> all.skip(n).contains(other));
            }
        }
    }
    assert(all.skip(0) =~= all);
    sorted
}

/// Validates the services one after the other.
fn check_services(raws: Vec<RawService>) -> (r: Result<Vec<ServiceConfig>, ConfigError>)
    ensures
        match r {
            Ok(list) => checked_services(document::service_views(raws@)) == Ok::<
                _,
                Seq<char>,
            >(service_config_views(list@)),
            Err(ConfigError::Invalid(message)) => checked_services(
                document::service_views(raws@),
            ) == Err::<Seq<ServiceView>, _>(message@),
            Err(_) => false,
        },
{
    let ghost all = document::service_views(raws@);
    let mut checked: Vec<ServiceConfig> = Vec::new();
    let mut number: u64 = 0;
    assert(service_config_views(checked@) =~= Seq::<ServiceView>::empty());
    let count = raws.len();
    for raw in it: raws
        invariant
            count == all.len(),
            all == document::service_views(it.seq()),
            number == it.index(),
            checked_services(all.take(number as int)) == Ok::<_, Seq<char>>(
                service_config_views(checked@),
            ),
    {
        let ghost n = number as int;
        assert(it.seq()[n] == raw);
        assert(all[n] == raw@);
        assert(all.take(n + 1).drop_last() =~= all.take(n));
        assert(all.take(n + 1).last() == raw@);
        number = number + 1;
        match check_service(raw, number, &checked) {
            Ok(service) => {
                let ghost before = checked@;
                checked.push(service);
                assert(service_config_views(checked@) =~= service_config_views(before).push(
                    service@,
                ));
            },
            Err(error) => {
                proof {
                    lemma_problem_stays(all, n + 1);
                }
                return Err(error);
            },
        }
    }
    assert(all.take(all.len() as int) =~= all);
    Ok(checked)
}

impl Config {
    /// Validates a configuration as it is written. The first rule that is broken
    /// rejects it as a whole.
    pub fn from_raw(raw: RawConfig) -> (r: Result<Config, ConfigError>)
        ensures
            match r {
                Ok(config) => checked_config(raw@) is Ok && is_config_of(
                    config@,
                    checked_config(raw@)->Ok_0,
                ) && valid_config(config@),
                Err(ConfigError::Invalid(message)) => checked_config(raw@) == Err::<
                    (SocketAddress, Seq<ServiceView>),
                    _,
                >(message@),
                Err(_) => false,
            },
    {
        let listen = match parse_socket_address(raw.listen.as_str()) {
            Some(listen) => listen,
            None => {
                return Err(
                    ConfigError::Invalid("listen must be a literal IP socket address".to_owned()),
                );
            },
        };
        if listen.port < 1_024 {
            return Err(
                ConfigError::Invalid(
                    "listen must use a fixed unprivileged port (1024 or greater)".to_owned(),
                ),
            );
        }
        if raw.services.len() == 0 {
            return Err(ConfigError::Invalid("at least one service must be configured".to_owned()));
        }
        let ghost raws = raw@.services;
        let checked = match check_services(raw.services) {
            Ok(checked) => checked,
            Err(error) => {
                return Err(error);
            },
        };
        proof {
            lemma_checked_services(raws);
        }
        let ghost accepted = service_config_views(checked@);
        let services = order_services(checked);
        let config = Config { listen, services };
        proof {
            assert forall|service: ServiceView|
                config@.services.contains(service) <==> #[trigger] accepted.contains(service) by {
                assert(service_config_views(services@).contains(service) <==> accepted.contains(
                    service,
                ));
            }
            lemma_config_is_valid(config@, (listen, accepted));
        }
        Ok(config)
    }

    /// Reads and validates a configuration.
    pub fn from_toml(input: &str) -> (r: Result<Config, ConfigError>)
        ensures
            match r {
                Ok(config) => is_document(input@) && checked_config(document_of(input@)) is Ok
                    && is_config_of(config@, checked_config(document_of(input@))->Ok_0)
                    && valid_config(config@),
                Err(ConfigError::Parse(DocumentError::Syntax(error))) => {
                    &&& document::toml_document(input@) is Err
                    &&& document::is_shown_as(error, document::toml_document(input@)->Err_0)
                },
                Err(ConfigError::Parse(DocumentError::Schema(error, text))) => {
                    &&& document::toml_document(input@) is Ok
                    &&& document::config_from_item(
                        document::toml_document(input@)->Ok_0,
                    ) == Err::<document::RawConfigView, _>(error@)
                    &&& text@ == document::shown(input@, error@)
                },
                Err(ConfigError::Invalid(message)) => is_document(input@) && checked_config(
                    document_of(input@),
                ) == Err::<(SocketAddress, Seq<ServiceView>), _>(message@),
                Err(ConfigError::Read { .. }) => false,
            },
    {
        match read_document(input) {
            Ok(raw) => Config::from_raw(raw),
            Err(error) => Err(ConfigError::Parse(error)),
        }
    }

    /// The address that the gateway listens on.
    pub fn listen(&self) -> (r: SocketAddress)
        ensures
            r == self@.listen,
    {
        self.listen
    }

    /// The services, in the order of their hosts.
    pub fn services(&self) -> (r: &[ServiceConfig])
        ensures
            service_config_views(r@) == self@.services,
    {
        self.services.as_slice()
    }

    /// The service that a request with this `Host` is routed to.
    pub fn service_for_request_host(&self, host: &str) -> (r: Option<&ServiceConfig>)
        ensures
            match r {
                Some(service) => self@.services.contains(service@)
                    && host::normalized_authority(host@, Some(self@.listen.port)) == Some(
                    service@.host,
                ),
                None => match host::normalized_authority(
                    host@,
                    Some(self@.listen.port),
                ) {
                    Some(name) => !host_taken(self@.services, name),
                    None => true,
                },
            },
    {
        let name = match normalize_request_host(host, self.listen.port) {
            Some(name) => name,
            None => {
                return None;
            },
        };
        let ghost views = self@.services;
        for i in 0..self.services.len()
            invariant
                views == service_config_views(self.services@),
                forall|j: int| 0 <= j < i ==> (#[trigger] views[j]).host != name@,
                views == self@.services,
                host::normalized_authority(host@, Some(self@.listen.port)) == Some(name@),
        {
            assert(views[i as int] == self.services@[i as int]@);
            if *self.services[i].host.as_str() == *name.as_str() {
                assert(views.contains(views[i as int]));
                return Some(&self.services[i]);
            }
        }
        None
    }
}

/// Whether a text is a TOML document with the fields of a configuration.
pub open spec fn is_document(input: Seq<char>) -> bool {
    document::toml_document(input) is Ok && document::config_from_item(
        document::toml_document(input)->Ok_0,
    ) is Ok
}

/// The fields that a document holds.
pub open spec fn document_of(input: Seq<char>) -> document::RawConfigView {
    document::config_from_item(document::toml_document(input)->Ok_0)->Ok_0
}

/// Every configured service is what requests for its host are routed to: under
/// its name, with one terminal dot, with the listener port, and in any case. No
/// other service has that host.
pub proof fn law_configured_host_is_routed(config: ConfigView, i: int, spelling: Seq<char>)
    requires
        valid_config(config),
        0 <= i < config.services.len(),
        text::lower(spelling) == config.services[i].host || text::lower(spelling)
            == config.services[i].host.push('.') || text::lower(spelling)
            == config.services[i].host.push(':') + text::decimal(config.listen.port as nat)
            || text::lower(spelling) == config.services[i].host.push('.').push(':')
            + text::decimal(config.listen.port as nat),
    ensures
        host::normalized_authority(spelling, Some(config.listen.port)) == Some(
            config.services[i].host,
        ),
        forall|service: ServiceView|
            config.services.contains(service) && #[trigger] service.host
                == config.services[i].host ==> service == config.services[i],
{
    let name = config.services[i].host;
    assert(valid_service(config.services[i]));
    host::law_valid_name_is_normal(name);
    let other_port: u16 = if config.listen.port == 0 {
        1
    } else {
        0
    };
    host::law_host_forms(name, name, config.listen.port, other_port);
    host::law_host_case_is_ignored(spelling, Some(config.listen.port));
    assert forall|service: ServiceView|
        config.services.contains(service) && #[trigger] service.host == name implies service
        == config.services[i] by {
        let j = choose|j: int| 0 <= j < config.services.len() && config.services[j] == service;
        if i < j {
            assert(config.services[i].host != config.services[j].host);
        } else if j < i {
            assert(config.services[j].host != config.services[i].host);
        }
    }
}

/// A loopback address with a port of four digits.
#[verifier::spinoff_prover]
proof fn lemma_local_address(s: Seq<char>, port: int)
    requires
        s.len() == 14,
        s.take(9) == "127.0.0.1"@,
        s[9] == ':',
        text::is_digit(s[10]) && text::is_digit(s[11]) && text::is_digit(s[12])
            && text::is_digit(s[13]),
        port == text::digit_value(s[10]) * 1000 + text::digit_value(s[11]) * 100
            + text::digit_value(s[12]) * 10 + text::digit_value(s[13]),
    ensures
        address::socket_address(s) == Some(
            SocketAddress {
                ip: address::IpAddress::V4(0x7f00_0001),
                port: port as u16,
                scope_id: 0,
            },
        ),
{
    reveal_strlit("127.0.0.1");
    let ip = s.take(9);
    assert forall|j: int| 0 <= j < 9 implies s[j] == ip[j] by {}
    text::lemma_first_index_unique(s, ':', 9);
    text::lemma_split_in_four(ip, '.', 3, 5, 7);
    assert(address::octet(ip.take(3)) == Some(127int)) by {
        reveal_with_fuel(text::number_value, 4);
    }
    assert(address::octet(ip.subrange(4, 5)) == Some(0int)) by {
        reveal_with_fuel(text::number_value, 2);
    }
    assert(address::octet(ip.subrange(6, 7)) == Some(0int)) by {
        reveal_with_fuel(text::number_value, 2);
    }
    assert(address::octet(ip.skip(8)) == Some(1int)) by {
        reveal_with_fuel(text::number_value, 2);
    }
    assert(address::ipv4(ip) == Some(0x7f00_0001int));
    assert(text::number(s.skip(10), 10, 0xffff) == Some(port)) by {
        reveal_with_fuel(text::number_value, 5);
    }
}

/// A name of four labels, written in lower case.
proof fn lemma_four_labels(s: Seq<char>, a: int, b: int, c: int)
    requires
        0 < a,
        a + 1 < b,
        b + 1 < c,
        c + 1 < s.len() <= 63,
        forall|j: int|
            0 <= j < s.len() ==> if j == a || j == b || j == c {
                s[j] == '.'
            } else {
                'a' <= #[trigger] s[j] && s[j] <= 'z'
            },
    ensures
        host::normalized_authority(s, None) == Some(s),
{
    text::lemma_split_in_four(s, '.', a, b, c);
    let labels = text::split(s, '.');
    assert(labels[0] == s.take(a));
    assert(labels[1] == s.subrange(a + 1, b));
    assert(labels[2] == s.subrange(b + 1, c));
    assert(labels[3] == s.skip(c + 1));
    assert(text::digit_value(labels[0][0]) >= 10);
    assert(address::octet(labels[0]) is None);
    assert(host::valid_dns_name(s));
    assert(text::lower(s) =~= s);
    host::law_valid_name_is_normal(s);
}

/// Two services that differ in host, label and upstream, and are in order each by
/// itself, pass together.
proof fn lemma_two_services_pass(raws: Seq<document::RawServiceView>)
    requires
        raws.len() == 2,
        checked_service(raws[0], 1, Seq::<ServiceView>::empty()) is Ok,
        checked_service(raws[1], 2, Seq::<ServiceView>::empty()) is Ok,
        host::normalized_authority(raws[0].host, None) != host::normalized_authority(
            raws[1].host,
            None,
        ),
        raws[0].launchd_label != raws[1].launchd_label,
        address::socket_address(raws[0].upstream) != address::socket_address(raws[1].upstream),
    ensures
        checked_services(raws) is Ok,
{
    let none = Seq::<ServiceView>::empty();
    let one = none.push(checked_service(raws[0], 1, none)->Ok_0);
    let front = raws.drop_last();
    assert(front.drop_last() =~= Seq::<document::RawServiceView>::empty());
    assert(checked_services(front.drop_last()) == Ok::<_, Seq<char>>(none));
    assert(checked_services(front) == Ok::<_, Seq<char>>(one));
    assert(checked_service(raws[1], 2, one) is Ok);
}

/// What makes a service of the starter configuration pass.
#[verifier::opaque]
spec fn suits_starter(
    host: Seq<char>,
    upstream: Seq<char>,
    label: Seq<char>,
    port: u16,
) -> bool {
    &&& host::normalized_authority(host, None) == Some(host)
    &&& address::socket_address(upstream) == Some(
        SocketAddress { ip: address::IpAddress::V4(0x7f00_0001), port, scope_id: 0 },
    )
    &&& port != 0
    &&& is_launchd_label(label)
}

proof fn lemma_first_service_suits()
    ensures
        suits_starter(
            "first.apps.home.arpa"@,
            "127.0.0.1:9001"@,
            "net.example.first"@,
            9001,
        ),
{
    reveal(suits_starter);
    assert(host::normalized_authority("first.apps.home.arpa"@, None) == Some(
        "first.apps.home.arpa"@,
    )) by {
        reveal_strlit("first.apps.home.arpa");
        lemma_four_labels("first.apps.home.arpa"@, 5, 10, 15);
    }
    assert(is_launchd_label("net.example.first"@)) by {
        reveal_strlit("net.example.first");
    }
    reveal_strlit("127.0.0.1");
    reveal_strlit("127.0.0.1:9001");
    assert("127.0.0.1:9001"@.take(9) =~= "127.0.0.1"@);
    lemma_local_address("127.0.0.1:9001"@, 9001);
}

proof fn lemma_second_service_suits()
    ensures
        suits_starter(
            "second.apps.home.arpa"@,
            "127.0.0.1:9002"@,
            "net.example.second"@,
            9002,
        ),
{
    reveal(suits_starter);
    assert(host::normalized_authority("second.apps.home.arpa"@, None) == Some(
        "second.apps.home.arpa"@,
    )) by {
        reveal_strlit("second.apps.home.arpa");
        lemma_four_labels("second.apps.home.arpa"@, 6, 11, 16);
    }
    assert(is_launchd_label("net.example.second"@)) by {
        reveal_strlit("net.example.second");
    }
    reveal_strlit("127.0.0.1");
    reveal_strlit("127.0.0.1:9002");
    assert("127.0.0.1:9002"@.take(9) =~= "127.0.0.1"@);
    lemma_local_address("127.0.0.1:9002"@, 9002);
}

/// A service of the starter configuration is in order by itself.
proof fn lemma_starter_service_passes(
    host: Seq<char>,
    upstream: Seq<char>,
    label: Seq<char>,
    port: u16,
    number: nat,
)
    requires
        suits_starter(host, upstream, label, port),
    ensures
        checked_service(
            document::starter_service_view(host, upstream, label),
            number,
            Seq::<ServiceView>::empty(),
        ) is Ok,
{
    reveal(suits_starter);
    assert(is_absolute("/usr/bin/true"@)) by {
        reveal_strlit("/usr/bin/true");
    }
}

/// The services of the starter configuration pass.
proof fn lemma_starter_services_pass()
    ensures
        checked_services(document::starter_view().services) is Ok,
{
    let raws = document::starter_view().services;
    lemma_first_service_suits();
    lemma_second_service_suits();
    lemma_starter_service_passes(
        raws[0].host,
        raws[0].upstream,
        raws[0].launchd_label,
        9001,
        1,
    );
    lemma_starter_service_passes(
        raws[1].host,
        raws[1].upstream,
        raws[1].launchd_label,
        9002,
        2,
    );
    assert(raws[0].host != raws[1].host && raws[0].launchd_label != raws[1].launchd_label) by {
        reveal_strlit("first.apps.home.arpa");
        reveal_strlit("second.apps.home.arpa");
        reveal_strlit("net.example.first");
        reveal_strlit("net.example.second");
        assert(raws[0].host.len() != raws[1].host.len());
        assert(raws[0].launchd_label.len() != raws[1].launchd_label.len());
    }
    assert(host::normalized_authority(raws[0].host, None) != host::normalized_authority(
        raws[1].host,
        None,
    ) && address::socket_address(raws[0].upstream) != address::socket_address(
        raws[1].upstream,
    )) by {
        reveal(suits_starter);
    }
    lemma_two_services_pass(raws);
}

/// A configuration with a listener in order and services that pass is in order.
proof fn lemma_config_passes(raw: document::RawConfigView)
    requires
        address::socket_address(raw.listen) matches Some(listen) && listen.port >= 1_024,
        raw.services.len() > 0,
        checked_services(raw.services) is Ok,
    ensures
        checked_config(raw) is Ok,
{
}

/// The starter configuration passes validation.
#[verifier::spinoff_prover]
pub proof fn lemma_starter_is_valid()
    ensures
        checked_config(document::starter_view()) is Ok,
{
    lemma_starter_services_pass();
    assert(address::socket_address("127.0.0.1:8080"@) matches Some(listen) && listen.port
        == 8080) by {
        reveal_strlit("127.0.0.1");
        reveal_strlit("127.0.0.1:8080");
        assert("127.0.0.1:8080"@.take(9) =~= "127.0.0.1"@);
        lemma_local_address("127.0.0.1:8080"@, 8080);
    }
    lemma_config_passes(document::starter_view());
}

impl ServiceConfig {
    /// The normalised host that requests name.
    pub fn host(&self) -> (r: &str)
        ensures
            r@ == self@.host,
    {
        self.host.as_str()
    }

    /// The loopback address that requests are forwarded to.
    pub fn upstream(&self) -> (r: SocketAddress)
        ensures
            r == self@.upstream,
    {
        self.upstream
    }

    /// The label of the job in the user's launchd domain.
    pub fn launchd_label(&self) -> (r: &str)
        ensures
            r@ == self@.launchd_label,
    {
        self.launchd_label.as_str()
    }

    /// How long the service must be idle before it may be stopped.
    pub fn idle_timeout_seconds(&self) -> (r: u64)
        ensures
            r == self@.idle_timeout_seconds,
    {
        self.idle_timeout_seconds
    }

    /// The command that may veto a stop.
    pub fn can_stop_command(&self) -> (r: Option<&[String]>)
        ensures
            match r {
                Some(command) => self@.can_stop_command == Some(text::texts(command@)),
                None => self@.can_stop_command is None,
            },
    {
        match &self.can_stop_command {
            Some(command) => Some(command.as_slice()),
            None => None,
        }
    }
}

impl ConfigError {
    /// The message shown to the user.
    pub fn message(&self) -> (message: String)
        ensures
            match self {
                ConfigError::Read { path, source } => message@ == "cannot read "@ + path@ + ": "@
                    + source@,
                ConfigError::Parse(DocumentError::Syntax(error)) => exists|text: String|
                    vstd::string::to_string_from_display_ensures::<toml::de::Error>(error, text)
                        && message@ == "invalid TOML configuration: "@ + #[trigger] text@,
                ConfigError::Parse(DocumentError::Schema(_, text)) => message@
                    == "invalid TOML configuration: "@ + text@,
                ConfigError::Invalid(text) => message@ == "invalid configuration: "@ + text@,
            },
    {
        let mut message = String::new();
        match self {
            ConfigError::Read { path, source } => {
                message.push_str("cannot read ");
                message.push_str(path.as_str());
                message.push_str(": ");
                message.push_str(source.as_str());
            },
            ConfigError::Parse(DocumentError::Syntax(error)) => {
                message.push_str("invalid TOML configuration: ");
                message.push_str(error.to_string().as_str());
            },
            ConfigError::Parse(DocumentError::Schema(_, text)) => {
                message.push_str("invalid TOML configuration: ");
                message.push_str(text.as_str());
            },
            ConfigError::Invalid(text) => {
                message.push_str("invalid configuration: ");
                message.push_str(text.as_str());
            },
        }
        message
    }
}

/// Whether a service is in order by itself, once its host and address have been read:
/// with a loopback address and a port, a label, some idle time, and a check, if it has
/// one, whose first text begins with a slash.
pub open spec fn service_is_in_order(
    service: RawService,
    host: Option<String>,
    upstream: Option<SocketAddress>,
    labelled: bool,
) -> bool {
    &&& host is Some
    &&& upstream is Some
    &&& upstream->0.ip matches address::IpAddress::V4(n) ==> n / 0x100_0000 == 127
    &&& upstream->0.ip matches address::IpAddress::V6(n) ==> n == 1
    &&& upstream->0.port > 0
    &&& labelled
    &&& service.idle_timeout_seconds > 0
    &&& service.can_stop_command matches Some(command) ==> command@.len() > 0 && command@[0]@.len()
        > 0 && command@[0]@[0] == '/'
}

proof fn lemma_service_in_order(
    service: RawService,
    host: Option<String>,
    upstream: Option<SocketAddress>,
    labelled: bool,
    number: nat,
)
    requires
        host is Some ==> host::normalized_authority(service.host@, None) == Some(host->0@),
        host is None ==> host::normalized_authority(service.host@, None) is None,
        upstream == address::socket_address(service.upstream@),
        labelled == is_launchd_label(service.launchd_label@),
    ensures
        service_is_in_order(service, host, upstream, labelled) <==> checked_service(
            service@,
            number,
            Seq::<ServiceView>::empty(),
        ) is Ok,
{
    if let Some(command) = service.can_stop_command {
        let all = text::texts(command@);
        assert(all.len() == command@.len());
        if command@.len() > 0 {
            assert(all[0] == command@[0]@);
        }
    }
}

/// A service that is in order by itself, and has nothing in common with those before it,
/// passes after them.
proof fn lemma_passes_after(
    raw: document::RawServiceView,
    number: nat,
    earlier: Seq<ServiceView>,
)
    requires
        checked_service(raw, 1, Seq::<ServiceView>::empty()) is Ok,
        !host_taken(earlier, host::normalized_authority(raw.host, None)->0),
        !label_taken(earlier, raw.launchd_label),
        !upstream_taken(earlier, address::socket_address(raw.upstream)->0),
    ensures
        checked_service(raw, number, earlier) is Ok,
{
}

/// Services that are in order each by itself and have nothing in common pass together.
proof fn lemma_services_pass(raws: Seq<document::RawServiceView>)
    requires
        forall|i: int|
            0 <= i < raws.len() ==> checked_service(
                #[trigger] raws[i],
                1,
                Seq::<ServiceView>::empty(),
            ) is Ok,
        forall|i: int, j: int|
            0 <= i < j < raws.len() ==> {
                &&& host::normalized_authority((#[trigger] raws[i]).host, None)
                    != host::normalized_authority((#[trigger] raws[j]).host, None)
                &&& raws[i].launchd_label != raws[j].launchd_label
                &&& address::socket_address(raws[i].upstream) != address::socket_address(
                    raws[j].upstream,
                )
            },
    ensures
        checked_services(raws) is Ok,
    decreases raws.len(),
{
    if raws.len() > 0 {
        let front = raws.drop_last();
        let n = raws.len() - 1;
        assert forall|i: int| 0 <= i < front.len() implies checked_service(
            #[trigger] front[i],
            1,
            Seq::<ServiceView>::empty(),
        ) is Ok by {
            assert(front[i] == raws[i]);
        }
        assert forall|i: int, j: int| 0 <= i < j < front.len() implies {
            &&& host::normalized_authority((#[trigger] front[i]).host, None)
                != host::normalized_authority((#[trigger] front[j]).host, None)
            &&& front[i].launchd_label != front[j].launchd_label
            &&& address::socket_address(front[i].upstream) != address::socket_address(
                front[j].upstream,
            )
        } by {
            assert(front[i] == raws[i] && front[j] == raws[j]);
        }
        lemma_services_pass(front);
        assert(checked_service(raws[n], 1, Seq::<ServiceView>::empty()) is Ok);
        assert forall|i: int| 0 <= i < n implies {
            &&& host::normalized_authority((#[trigger] raws[i]).host, None)
                != host::normalized_authority(raws.last().host, None)
            &&& raws[i].launchd_label != raws.last().launchd_label
            &&& address::socket_address(raws[i].upstream) != address::socket_address(
                raws.last().upstream,
            )
        } by {
            assert(raws[n] == raws.last());
        }
        lemma_last_is_apart(raws);
        lemma_passes_after(raws[n], raws.len(), checked_services(front)->Ok_0);
    }
}

/// Where services before the last have passed, the last has nothing in common with them.
proof fn lemma_last_is_apart(raws: Seq<document::RawServiceView>)
    requires
        raws.len() > 0,
        checked_services(raws.drop_last()) is Ok,
        host::normalized_authority(raws.last().host, None) is Some,
        address::socket_address(raws.last().upstream) is Some,
        forall|i: int|
            0 <= i < raws.len() - 1 ==> {
                &&& host::normalized_authority((#[trigger] raws[i]).host, None)
                    != host::normalized_authority(raws.last().host, None)
                &&& raws[i].launchd_label != raws.last().launchd_label
                &&& address::socket_address(raws[i].upstream) != address::socket_address(
                    raws.last().upstream,
                )
            },
    ensures
        ({
            let earlier = checked_services(raws.drop_last())->Ok_0;
            let last = raws.last();
            &&& !host_taken(earlier, host::normalized_authority(last.host, None)->0)
            &&& !label_taken(earlier, last.launchd_label)
            &&& !upstream_taken(earlier, address::socket_address(last.upstream)->0)
        }),
{
    let front = raws.drop_last();
    let earlier = checked_services(front)->Ok_0;
    law_accepted_services_are_as_written(front, earlier);
    assert forall|i: int| 0 <= i < earlier.len() implies (#[trigger] earlier[i]).host
        != host::normalized_authority(raws.last().host, None)->0 && earlier[i].launchd_label
        != raws.last().launchd_label && earlier[i].upstream != address::socket_address(
        raws.last().upstream,
    )->0 by {
        assert(front[i] == raws[i]);
    }
}

/// Services that pass together are in order each by itself and have nothing in common.
proof fn lemma_passed_services(raws: Seq<document::RawServiceView>, i: int, j: int)
    requires
        checked_services(raws) is Ok,
        0 <= i < raws.len(),
    ensures
        checked_service(raws[i], 1, Seq::<ServiceView>::empty()) is Ok,
        i < j < raws.len() ==> {
            &&& host::normalized_authority(raws[i].host, None) != host::normalized_authority(
                raws[j].host,
                None,
            )
            &&& raws[i].launchd_label != raws[j].launchd_label
            &&& address::socket_address(raws[i].upstream) != address::socket_address(
                raws[j].upstream,
            )
        },
{
    let services = checked_services(raws)->Ok_0;
    lemma_checked_services(raws);
    law_accepted_services_are_as_written(raws, services);
    assert(valid_service(services[i]));
    assert(host::normalized_authority(raws[i].host, None) == Some(services[i].host));
    if i < j < raws.len() {
        assert(host::normalized_authority(raws[j].host, None) == Some(services[j].host));
        assert(services[i].host != services[j].host);
    }
}

/// A configuration is accepted exactly when its listener is an address with a port from
/// 1024 on, it has a service, every service is in order by itself, and no two have a
/// host, a label or an address in common. What is accepted is what is written, with the
/// hosts as they are found.
pub proof fn law_configuration_is_accepted_when_in_order(
    raw: RawConfig,
    r: Result<Config, ConfigError>,
    listen_text: &str,
    listen: Option<SocketAddress>,
    host_texts: Seq<&str>,
    hosts: Seq<Option<String>>,
    upstream_texts: Seq<&str>,
    upstreams: Seq<Option<SocketAddress>>,
    label_texts: Seq<&str>,
    labels: Seq<bool>,
)
    requires
        call_ensures(Config::from_raw, (raw,), r),
        listen_text@ == raw.listen@,
        call_ensures(parse_socket_address, (listen_text,), listen),
        forall|i: int|
            0 <= i < raw.services@.len() ==> {
                &&& (#[trigger] host_texts[i])@ == raw.services@[i].host@
                &&& call_ensures(normalize_config_host, (host_texts[i],), hosts[i])
                &&& upstream_texts[i]@ == raw.services@[i].upstream@
                &&& call_ensures(parse_socket_address, (upstream_texts[i],), upstreams[i])
                &&& label_texts[i]@ == raw.services@[i].launchd_label@
                &&& call_ensures(valid_launchd_label, (label_texts[i],), labels[i])
            },
    ensures
        r is Ok <==> {
            &&& listen is Some
            &&& listen->0.port >= 1_024
            &&& raw.services@.len() > 0
            &&& forall|i: int|
                0 <= i < raw.services@.len() ==> service_is_in_order(
                    #[trigger] raw.services@[i],
                    hosts[i],
                    upstreams[i],
                    labels[i],
                )
            &&& forall|i: int, j: int|
                0 <= i < j < raw.services@.len() ==> {
                    &&& (#[trigger] hosts[i])->0@ != (#[trigger] hosts[j])->0@
                    &&& raw.services@[i].launchd_label@ != raw.services@[j].launchd_label@
                    &&& upstreams[i] != upstreams[j]
                }
        },
        r matches Ok(config) ==> {
            &&& config@.listen == listen->0
            &&& config@.services.len() == raw.services@.len()
            &&& forall|i: int|
                0 <= i < raw.services@.len() ==> config@.services.contains(
                    ServiceView {
                        host: hosts[i]->0@,
                        upstream: upstreams[i]->0,
                        launchd_label: (#[trigger] raw.services@[i]).launchd_label@,
                        idle_timeout_seconds: raw.services@[i].idle_timeout_seconds,
                        can_stop_command: document::command_view(
                            raw.services@[i].can_stop_command,
                        ),
                    },
                )
        },
{
    let raws = raw@.services;
    let n = raw.services@.len() as int;
    assert(raws.len() == n);
    assert forall|i: int| 0 <= i < n implies #[trigger] raws[i] == raw.services@[i]@ by {}
    assert forall|i: int| 0 <= i < n implies (service_is_in_order(
        #[trigger] raw.services@[i],
        hosts[i],
        upstreams[i],
        labels[i],
    ) <==> checked_service(raws[i], 1, Seq::<ServiceView>::empty()) is Ok) by {
        assert(host_texts[i]@ == raw.services@[i].host@);
        lemma_service_in_order(raw.services@[i], hosts[i], upstreams[i], labels[i], 1);
    }
    let in_order = forall|i: int|
        0 <= i < n ==> service_is_in_order(
            #[trigger] raw.services@[i],
            hosts[i],
            upstreams[i],
            labels[i],
        );
    let distinct = forall|i: int, j: int|
        0 <= i < j < n ==> {
            &&& (#[trigger] hosts[i])->0@ != (#[trigger] hosts[j])->0@
            &&& raw.services@[i].launchd_label@ != raw.services@[j].launchd_label@
            &&& upstreams[i] != upstreams[j]
        };
    if in_order && distinct {
        assert forall|i: int| 0 <= i < n implies checked_service(
            #[trigger] raws[i],
            1,
            Seq::<ServiceView>::empty(),
        ) is Ok by {
            let service = raw.services@[i];
            assert(service_is_in_order(service, hosts[i], upstreams[i], labels[i]));
        }
        assert forall|i: int, j: int| 0 <= i < j < n implies {
            &&& host::normalized_authority((#[trigger] raws[i]).host, None)
                != host::normalized_authority((#[trigger] raws[j]).host, None)
            &&& raws[i].launchd_label != raws[j].launchd_label
            &&& address::socket_address(raws[i].upstream) != address::socket_address(
                raws[j].upstream,
            )
        } by {
            assert(hosts[i]->0@ != hosts[j]->0@);
            assert(host_texts[i]@ == raw.services@[i].host@);
            assert(host_texts[j]@ == raw.services@[j].host@);
            assert(service_is_in_order(raw.services@[i], hosts[i], upstreams[i], labels[i]));
            assert(service_is_in_order(raw.services@[j], hosts[j], upstreams[j], labels[j]));
        }
        lemma_services_pass(raws);
    }
    if checked_services(raws) is Ok {
        assert forall|i: int| 0 <= i < n implies service_is_in_order(
            #[trigger] raw.services@[i],
            hosts[i],
            upstreams[i],
            labels[i],
        ) by {
            lemma_passed_services(raws, i, i);
        }
        assert forall|i: int, j: int| 0 <= i < j < n implies {
            &&& (#[trigger] hosts[i])->0@ != (#[trigger] hosts[j])->0@
            &&& raw.services@[i].launchd_label@ != raw.services@[j].launchd_label@
            &&& upstreams[i] != upstreams[j]
        } by {
            lemma_passed_services(raws, i, j);
            assert(host_texts[i]@ == raw.services@[i].host@);
            assert(host_texts[j]@ == raw.services@[j].host@);
            assert(service_is_in_order(raw.services@[i], hosts[i], upstreams[i], labels[i]));
            assert(service_is_in_order(raw.services@[j], hosts[j], upstreams[j], labels[j]));
        }
    }
    if let Ok(config) = r {
        let services = checked_services(raws)->Ok_0;
        law_accepted_services_are_as_written(raws, services);
        assert forall|i: int| 0 <= i < n implies config@.services.contains(
            ServiceView {
                host: hosts[i]->0@,
                upstream: upstreams[i]->0,
                launchd_label: (#[trigger] raw.services@[i]).launchd_label@,
                idle_timeout_seconds: raw.services@[i].idle_timeout_seconds,
                can_stop_command: document::command_view(raw.services@[i].can_stop_command),
            },
        ) by {
            assert(host_texts[i]@ == raw.services@[i].host@);
            assert(host::normalized_authority(raws[i].host, None) == Some(services[i].host));
            assert(services.contains(services[i]));
            assert(services[i] =~= ServiceView {
                host: hosts[i]->0@,
                upstream: upstreams[i]->0,
                launchd_label: raw.services@[i].launchd_label@,
                idle_timeout_seconds: raw.services@[i].idle_timeout_seconds,
                can_stop_command: document::command_view(raw.services@[i].can_stop_command),
            });
        }
    }
}

/// What is wrong with the listener is said first, then that there is no service.
pub proof fn law_broken_listener_is_named(
    raw: RawConfig,
    r: Result<Config, ConfigError>,
    listen_text: &str,
    listen: Option<SocketAddress>,
)
    requires
        call_ensures(Config::from_raw, (raw,), r),
        listen_text@ == raw.listen@,
        call_ensures(parse_socket_address, (listen_text,), listen),
    ensures
        listen is None ==> (r matches Err(ConfigError::Invalid(message)) && message@
            == "listen must be a literal IP socket address"@),
        listen is Some && listen->0.port < 1_024 ==> (r matches Err(ConfigError::Invalid(message))
            && message@ == "listen must use a fixed unprivileged port (1024 or greater)"@),
        listen is Some && listen->0.port >= 1_024 && raw.services@.len() == 0 ==> (r matches Err(
            ConfigError::Invalid(message),
        ) && message@ == "at least one service must be configured"@),
{
    assert(raw@.services.len() == raw.services@.len());
}

/// A label is one exactly when it is not empty and holds no slash, no white space and no
/// control character: every other visible character can stand in it.
pub proof fn law_labels_of_visible_characters(label: &str, at: int, r: bool)
    requires
        call_ensures(valid_launchd_label, (label,), r),
    ensures
        label@.len() > 0 && (forall|i: int|
            0 <= i < label@.len() ==> '!' <= #[trigger] label@[i] && label@[i] <= '~' && label@[i]
                != '/' || '\u{a1}' <= label@[i] && label@[i] <= '\u{167f}' || '\u{3001}'
                <= label@[i] && label@[i] <= '\u{10ffff}') ==> r,
        label@.len() == 0 ==> !r,
        0 <= at < label@.len() && (label@[at] == '/' || ('\u{0}' <= label@[at] && label@[at] <= ' ')
            || label@[at] == '\u{7f}') ==> !r,
{
    if label@.len() > 0 && (forall|i: int|
        0 <= i < label@.len() ==> '!' <= #[trigger] label@[i] && label@[i] <= '~' && label@[i] != '/'
            || '\u{a1}' <= label@[i] && label@[i] <= '\u{167f}' || '\u{3001}' <= label@[i] && label@[i]
            <= '\u{10ffff}') {
        assert forall|i: int| 0 <= i < label@.len() implies #[trigger] label@[i] != '/'
            && !is_control_char(label@[i]) && !is_whitespace_char(label@[i]) by {
            let c = label@[i];
            assert('!' <= c);
        }
    }
    if 0 <= at < label@.len() && (label@[at] == '/' || ('\u{0}' <= label@[at] && label@[at] <= ' ')
        || label@[at] == '\u{7f}') {
        let c = label@[at];
        assert(c == '/' || is_control_char(c) || is_whitespace_char(c));
    }
}

/// Whether a text comes before another: up to a place they are the same, and there the
/// first has ended or has the smaller character.
pub open spec fn comes_before(a: Seq<char>, b: Seq<char>, place: int) -> bool {
    &&& 0 <= place < b.len()
    &&& place <= a.len()
    &&& forall|k: int| 0 <= k < place ==> #[trigger] a[k] == b[k]
    &&& place == a.len() || a[place] < b[place]
}

proof fn lemma_less_at_a_place(a: Seq<char>, b: Seq<char>) -> (place: int)
    requires
        text_less(a, b),
    ensures
        comes_before(a, b, place),
    decreases a.len(),
{
    if a.len() == 0 {
        0
    } else if a[0] == b[0] {
        let k = lemma_less_at_a_place(a.skip(1), b.skip(1));
        assert forall|m: int| 0 <= m < k + 1 implies #[trigger] a[m] == b[m] by {
            if m > 0 {
                assert(a.skip(1)[m - 1] == b.skip(1)[m - 1]);
            }
        }
        k + 1
    } else {
        0
    }
}

/// The services of a configuration stand in the order of their hosts.
pub proof fn law_services_stand_in_order(
    raw: RawConfig,
    config: Config,
    services: &[ServiceConfig],
    i: int,
    j: int,
)
    requires
        call_ensures(Config::from_raw, (raw,), Ok(config)),
        call_ensures(Config::services, (&config,), services),
        0 <= i < j < services@.len(),
    ensures
        exists|place: int| #[trigger] comes_before(services@[i]@.host, services@[j]@.host, place),
{
    let views = config@.services;
    assert(views == service_config_views(services@));
    assert(views[i] == services@[i]@);
    assert(views[j] == services@[j]@);
    let place = lemma_less_at_a_place(views[i].host, views[j].host);
    assert(comes_before(services@[i]@.host, services@[j]@.host, place));
}

/// The service for a request's host is the one whose name it spells, in any case, with
/// one dot behind it or without, and with the listener port or without; with another
/// port there is none.
pub proof fn law_service_is_found_by_its_host(
    config: Config,
    host: &str,
    name: Seq<char>,
    at: int,
    port: u16,
    i: int,
    r: Option<&ServiceConfig>,
)
    requires
        call_ensures(Config::service_for_request_host, (&config, host), r),
        host::is_host_text(name),
        host::is_no_ipv4_text(name, at),
        0 <= i < config@.services.len(),
        host::is_lower_case_of(config@.services[i].host, name),
        forall|j: int|
            0 <= j < config@.services.len() && j != i ==> (#[trigger] config@.services[j]).host
                != config@.services[i].host,
    ensures
        host@ == name || host@ == name.push('.') ==> r is Some && r->0@ == config@.services[i],
        host@ == name.push(':') + text::decimal(port as nat) || host@ == name.push('.').push(':')
            + text::decimal(port as nat) ==> if port == config@.listen.port {
            r is Some && r->0@ == config@.services[i]
        } else {
            r is None
        },
{
    host::lemma_spelled_host(name, at, config@.listen.port, port);
    host::lemma_is_lower_case(config@.services[i].host, name);
    let services = config@.services;
    assert(services[i].host == text::lower(name));
    if let Some(service) = r {
        if service@.host == text::lower(name) {
            let k = choose|k: int| 0 <= k < services.len() && services[k] == service@;
            assert(services[k].host == services[i].host);
        }
    }
}

/// A service is found only by its own host: what the request names begins with it, but
/// for its case.
pub proof fn law_found_service_is_named(
    config: Config,
    host: &str,
    r: Option<&ServiceConfig>,
) -> (name: Seq<char>)
    requires
        call_ensures(Config::service_for_request_host, (&config, host), r),
    ensures
        r is Some ==> {
            &&& config@.services.contains(r->0@)
            &&& host::is_host_text(name)
            &&& host::is_lower_case_of(r->0@.host, name)
            &&& name.is_prefix_of(host@)
        },
{
    if r is Some {
        let name = host::lemma_found_host(host@, Some(config@.listen.port));
        assert(name =~= host@.take(name.len() as int));
        name
    } else {
        Seq::<char>::empty()
    }
}

/// What is shown of an error begins with what went wrong.
pub proof fn law_errors_are_shown(error: ConfigError, message: String)
    requires
        call_ensures(ConfigError::message, (&error,), message),
    ensures
        error matches ConfigError::Read { path, source } ==> message@ == "cannot read "@ + path@
            + ": "@ + source@,
        error matches ConfigError::Invalid(text) ==> message@ == "invalid configuration: "@ + text@,
        error is Parse ==> "invalid TOML configuration: "@.is_prefix_of(message@),
{
    if error is Parse {
        let start = "invalid TOML configuration: "@;
        assert(message@.take(start.len() as int) =~= start);
    }
}

/// Where the services before one are in order, what is wrong with it is said with its
/// number, counted from one: first its host, then its address, label, idle time and
/// check, and last what it has in common with one before it.
pub proof fn law_broken_service_is_named(
    raw: RawConfig,
    r: Result<Config, ConfigError>,
    i: int,
    host_text: &str,
    host: Option<String>,
    upstream_text: &str,
    upstream: Option<SocketAddress>,
    label_text: &str,
    labelled: bool,
    j: int,
    other_text: &str,
    other: Option<String>,
)
    requires
        call_ensures(Config::from_raw, (raw,), r),
        address::socket_address(raw.listen@) is Some,
        address::socket_address(raw.listen@)->0.port >= 1_024,
        0 <= i < raw.services@.len(),
        checked_services(raw@.services.take(i)) is Ok,
        host_text@ == raw.services@[i].host@,
        call_ensures(normalize_config_host, (host_text,), host),
        upstream_text@ == raw.services@[i].upstream@,
        call_ensures(parse_socket_address, (upstream_text,), upstream),
        label_text@ == raw.services@[i].launchd_label@,
        call_ensures(valid_launchd_label, (label_text,), labelled),
        0 <= j < i ==> other_text@ == raw.services@[j].host@ && call_ensures(
            normalize_config_host,
            (other_text,),
            other,
        ),
    ensures
        ({
            let service = raw.services@[i];
            let loopback = upstream is Some && (upstream->0.ip matches address::IpAddress::V4(n)
                ==> n / 0x100_0000 == 127) && (upstream->0.ip matches address::IpAddress::V6(n)
                ==> n == 1) && upstream->0.port > 0;
            let no_check = service.can_stop_command matches Some(command) && command@.len() == 0;
            let relative_check = service.can_stop_command matches Some(command) && command@.len()
                > 0 && !(command@[0]@.len() > 0 && command@[0]@[0] == '/');
            &&& host is None ==> is_said_of(
                r,
                i,
                " host must be an ASCII DNS hostname without a port"@,
            )
            &&& host is Some && upstream is None ==> is_said_of(
                r,
                i,
                " upstream must be a literal IP socket address"@,
            )
            &&& host is Some && upstream is Some && !loopback ==> is_said_of(
                r,
                i,
                " upstream must be a loopback address with a nonzero port"@,
            )
            &&& host is Some && loopback && !labelled ==> is_said_of(
                r,
                i,
                " launchd_label is invalid"@,
            )
            &&& host is Some && loopback && labelled && service.idle_timeout_seconds == 0
                ==> is_said_of(r, i, " idle_timeout_seconds must be greater than zero"@)
            &&& host is Some && loopback && labelled && service.idle_timeout_seconds > 0
                && no_check ==> is_said_of(r, i, " can_stop_command must not be empty"@)
            &&& host is Some && loopback && labelled && service.idle_timeout_seconds > 0
                && relative_check ==> is_said_of(
                r,
                i,
                " can_stop_command executable must be an absolute path"@,
            )
            &&& host is Some && loopback && labelled && service.idle_timeout_seconds > 0
                && !no_check && !relative_check && 0 <= j < i && other is Some && other->0@
                == host->0@ ==> is_said_of(r, i, " duplicates normalized host "@ + host->0@)
        }),
{
    let raws = raw@.services;
    let upto = raws.take(i + 1);
    let service = raw.services@[i];
    assert(raws.len() == raw.services@.len());
    assert(upto.drop_last() =~= raws.take(i));
    assert(upto.last() == service@);
    if let Some(command) = service.can_stop_command {
        let all = text::texts(command@);
        assert(all.len() == command@.len());
        if command@.len() > 0 {
            assert(all[0] == command@[0]@);
        }
    }
    let earlier = checked_services(raws.take(i))->Ok_0;
    if 0 <= j < i {
        law_accepted_services_are_as_written(raws.take(i), earlier);
        assert(raws.take(i)[j] == raw.services@[j]@);
        let common = earlier[j];
        assert(host::normalized_authority(raws.take(i)[j].host, None) == Some(common.host));
        if other is Some && host is Some && other->0@ == host->0@ {
            assert(earlier[j].host == host->0@);
            assert(host_taken(earlier, host->0@));
        }
    }
    if checked_services(upto) is Err {
        lemma_problem_stays(raws, i + 1);
    }
}

/// Whether a configuration is refused for a service, with what is wrong with it.
pub open spec fn is_said_of(r: Result<Config, ConfigError>, i: int, problem: Seq<char>) -> bool {
    r matches Err(ConfigError::Invalid(message)) && message@ == "service "@ + text::decimal(
        (i + 1) as nat,
    ) + problem
}

/// A text is a configuration exactly when it is TOML, the document holds the fields of
/// one, and those are in order; the first of these that fails is reported.
pub proof fn law_text_is_read_and_checked(
    input: &str,
    r: Result<Config, ConfigError>,
    root: document::TomlItem,
    decoded: Result<RawConfig, document::SchemaError>,
    checked: Result<Config, ConfigError>,
)
    requires
        call_ensures(Config::from_toml, (input,), r),
        document::toml_document(input@) matches Ok(item) ==> root@ == item,
        call_ensures(document::decode_config, (&root,), decoded),
        decoded is Ok ==> call_ensures(Config::from_raw, (decoded->Ok_0,), checked),
    ensures
        document::toml_document(input@) is Err ==> (r matches Err(
            ConfigError::Parse(DocumentError::Syntax(_)),
        )),
        document::toml_document(input@) is Ok && decoded is Err ==> (r matches Err(
            ConfigError::Parse(DocumentError::Schema(error, _)),
        ) && error@ == decoded->Err_0@),
        document::toml_document(input@) is Ok && decoded is Ok ==> (r is Ok <==> checked is Ok),
        document::toml_document(input@) is Ok && decoded is Ok && checked is Ok ==> r->Ok_0@.listen
            == checked->Ok_0@.listen && r->Ok_0@.services.len() == checked->Ok_0@.services.len()
            && forall|service: ServiceView|
            r->Ok_0@.services.contains(service) <==> #[trigger] checked->Ok_0@.services.contains(
                service,
            ),
        document::toml_document(input@) is Ok && decoded is Ok && checked is Err ==> (r matches Err(
            ConfigError::Invalid(message),
        ) && checked matches Err(ConfigError::Invalid(same)) && message@ == same@),
{
    if document::toml_document(input@) is Ok && decoded is Ok && checked is Ok {
        let both = checked_config(decoded->Ok_0@)->Ok_0;
        let services = both.1;
        assert(document_of(input@) == decoded->Ok_0@);
        assert(is_config_of(r->Ok_0@, both));
        assert(is_config_of(checked->Ok_0@, both));
        assert forall|service: ServiceView|
            r->Ok_0@.services.contains(service) <==> #[trigger] checked->Ok_0@.services.contains(
                service,
            ) by {
            assert(r->Ok_0@.services.contains(service) <==> services.contains(service));
        }
    }
}

} // verus!
