//! Host names: what a configured host and a request's `Host` field normalise to.
use http::uri::Authority;
use vstd::prelude::*;
use vstd::slice::slice_subrange;

use crate::address::{self, parse_ipv4};
use crate::text::{self, char_is_alphanumeric, chars_of, find_char, split_chars, to_lower_char};

verus! {

/// Whether `http::uri::Authority` takes a text as a whole.
pub uninterp spec fn authority_accepts(text: Seq<char>) -> bool;

/// What `u16::from_str` reads: decimal digits, with one plus sign before them at
/// most.
pub open spec fn u16_text(s: Seq<char>) -> Option<int> {
    if s.len() > 0 && s[0] == '+' {
        text::number(s.skip(1), 10, 0xffff)
    } else {
        text::number(s, 10, 0xffff)
    }
}

/// A character of a host name or of the port behind it.
pub open spec fn is_plain(c: char) -> bool {
    text::is_alphanumeric(c) || c == '-' || c == '.' || c == ':' || c == '+'
}

/// A text of plain characters with one colon at most.
pub open spec fn is_plain_authority(s: Seq<char>) -> bool {
    &&& s.len() > 0
    &&& forall|i: int| 0 <= i < s.len() ==> is_plain(#[trigger] s[i])
    &&& forall|i: int, j: int| 0 <= i < j < s.len() && s[i] == ':' ==> s[j] != ':'
}

/// `str::parse::<http::uri::Authority>`, with the `host` and the `port_u16` of the
/// authority that comes back.
///
/// A text of letters, digits, hyphens, dots, plus signs and one colon at most is
/// always accepted; which other texts are is left to the name. Where no `@` stands
/// in an accepted text, a host in brackets comes back with its opening bracket,
/// and any other is the text before the first colon. The port is the text behind
/// the last colon, read as a `u16`; there is none without a colon.
#[verifier::external_body]
fn parse_authority(text: &str) -> (r: Option<(String, Option<u16>)>)
    ensures
        r is Some <==> authority_accepts(text@),
        is_plain_authority(text@) ==> r is Some,
        r matches Some((host, port)) ==> {
            &&& text@.len() > 0
            &&& !text@.contains('@') && text@[0] == '[' ==> host@.len() > 0 && host@[0] == '['
            &&& !text@.contains('@') && text@[0] != '[' ==> host@ == before_colon(text@)
            &&& !text@.contains(':') ==> port is None
            &&& forall|i: int|
                0 <= i < text@.len() && #[trigger] text@[i] == ':' && !text@.skip(i + 1).contains(
                    ':',
                ) ==> match port {
                    Some(n) => u16_text(text@.skip(i + 1)) == Some(n as int),
                    None => u16_text(text@.skip(i + 1)) is None,
                }
        },
{
    match text.parse::<Authority>() {
        Ok(authority) => Some((authority.host().to_owned(), authority.port_u16())),
        Err(_) => None,
    }
}

/// The text before the first colon.
pub open spec fn before_colon(s: Seq<char>) -> Seq<char> {
    match text::first_index(s, ':') {
        Some(i) => s.take(i),
        None => s,
    }
}

/// A DNS label: up to 63 letters, digits and hyphens, no hyphen at either end.
pub open spec fn valid_label(s: Seq<char>) -> bool {
    &&& 0 < s.len() <= 63
    &&& s[0] != '-'
    &&& s.last() != '-'
    &&& forall|i: int|
        0 <= i < s.len() ==> text::is_alphanumeric(#[trigger] s[i]) || s[i] == '-'
}

/// Up to 253 characters of valid labels with dots between them, not an IPv4
/// address.
pub open spec fn valid_dns_name(s: Seq<char>) -> bool {
    &&& 0 < s.len() <= 253
    &&& address::ipv4(s) is None
    &&& forall|i: int|
        0 <= i < text::split(s, '.').len() ==> valid_label(
            #[trigger] text::split(s, '.')[i],
        )
}

/// A host name without the one dot that may end it.
pub open spec fn without_terminal_dot(s: Seq<char>) -> Seq<char> {
    if s.len() > 0 && s.last() == '.' {
        s.drop_last()
    } else {
        s
    }
}

/// The normal form of a DNS name: no terminal dot, lower case.
pub open spec fn normalized_dns_name(s: Seq<char>) -> Option<Seq<char>> {
    if valid_dns_name(without_terminal_dot(s)) {
        Some(text::lower(without_terminal_dot(s)))
    } else {
        None
    }
}

/// The normal form of a host name that may carry a port: only the allowed one,
/// and none where none is allowed.
pub open spec fn normalized_authority(s: Seq<char>, allowed_port: Option<u16>) -> Option<
    Seq<char>,
> {
    match text::first_index(s, ':') {
        None => normalized_dns_name(s),
        Some(i) => match (allowed_port, u16_text(s.skip(i + 1))) {
            (Some(expected), Some(actual)) => if actual == expected {
                normalized_dns_name(s.take(i))
            } else {
                None
            },
            _ => None,
        },
    }
}

/// Every character of a text is a separator or stands in one of the pieces.
proof fn lemma_split_covers(s: Seq<char>, sep: char, i: int)
    requires
        0 <= i < s.len(),
    ensures
        s[i] == sep || exists|k: int, j: int|
            0 <= k < text::split(s, sep).len() && 0 <= j < text::split(
                s,
                sep,
            )[k].len() && #[trigger] text::split(s, sep)[k][j] == s[i],
    decreases s.len(),
{
    let all = text::split(s, sep);
    let front = text::split(s.drop_last(), sep);
    text::lemma_split_len(s.drop_last(), sep);
    if i == s.len() - 1 {
        if s.last() != sep {
            let k = all.len() - 1;
            assert(all[k][all[k].len() - 1] == s[i]);
        }
    } else {
        lemma_split_covers(s.drop_last(), sep, i);
        if s[i] != sep {
            let (k, j) = choose|k: int, j: int|
                0 <= k < front.len() && 0 <= j < front[k].len() && #[trigger] front[k][j] == s[i];
            assert(all[k][j] == s[i]);
        }
    }
}

proof fn lemma_dns_name_chars(s: Seq<char>)
    requires
        valid_dns_name(s),
    ensures
        forall|i: int|
            0 <= i < s.len() ==> text::is_alphanumeric(#[trigger] s[i]) || s[i] == '-' || s[i]
                == '.',
{
    assert forall|i: int| 0 <= i < s.len() implies text::is_alphanumeric(#[trigger] s[i])
        || s[i] == '-' || s[i] == '.' by {
        lemma_split_covers(s, '.', i);
        if s[i] != '.' {
            let labels = text::split(s, '.');
            let (k, j) = choose|k: int, j: int|
                0 <= k < labels.len() && 0 <= j < labels[k].len() && #[trigger] labels[k][j]
                    == s[i];
            assert(valid_label(labels[k]));
        }
    }
}

/// What normalises is plain text.
proof fn lemma_normalized_is_plain(s: Seq<char>, allowed_port: Option<u16>)
    ensures
        normalized_authority(s, allowed_port) is Some ==> is_plain_authority(s),
{
    if normalized_authority(s, allowed_port) is Some {
        text::lemma_first_index(s, ':');
        match text::first_index(s, ':') {
            None => {
                lemma_dns_name_chars(without_terminal_dot(s));
                assert forall|i: int| 0 <= i < s.len() implies is_plain(#[trigger] s[i]) by {
                    if i < without_terminal_dot(s).len() {
                        assert(s[i] == without_terminal_dot(s)[i]);
                    }
                }
            },
            Some(c) => {
                let h = s.take(c);
                let p = s.skip(c + 1);
                lemma_dns_name_chars(without_terminal_dot(h));
                assert forall|i: int| 0 <= i < s.len() implies is_plain(#[trigger] s[i]) && (i > c
                    ==> s[i] != ':') by {
                    if i < c {
                        if i < without_terminal_dot(h).len() {
                            assert(s[i] == without_terminal_dot(h)[i]);
                        } else {
                            assert(s[i] == h.last());
                        }
                    } else if i > c {
                        assert(s[i] == p[i - c - 1]);
                        if p[0] == '+' {
                            if i > c + 1 {
                                assert(p.skip(1)[i - c - 2] == s[i]);
                            }
                        }
                    }
                }
            },
        }
    }
}

proof fn lemma_bracket_is_no_name(s: Seq<char>)
    requires
        s.len() > 0,
        s[0] == '[',
    ensures
        normalized_dns_name(s) is None,
{
    let name = without_terminal_dot(s);
    if valid_dns_name(name) {
        lemma_dns_name_chars(name);
        assert(name[0] == '[');
    }
}

fn label_is_valid(label: &[char]) -> (r: bool)
    ensures
        r == valid_label(label@),
{
    let n = label.len();
    if n == 0 || n > 63 || label[0] == '-' || label[n - 1] == '-' {
        return false;
    }
    for i in 0..n
        invariant
            n == label@.len(),
            forall|j: int|
                0 <= j < i ==> text::is_alphanumeric(#[trigger] label@[j]) || label@[j]
                    == '-',
    {
        if !char_is_alphanumeric(label[i]) && label[i] != '-' {
            return false;
        }
    }
    true
}

fn lower_text(chars: &[char]) -> (text: String)
    ensures
        text@ == text::lower(chars@),
{
    let mut text = String::new();
    for i in 0..chars.len()
        invariant
            text@ == text::lower(chars@.take(i as int)),
    {
        text.push(to_lower_char(chars[i]));
        assert(text::lower(chars@.take(i + 1)) =~= text@);
    }
    assert(chars@.take(chars@.len() as int) =~= chars@);
    text
}

/// The normal form of a DNS name.
fn normalize_dns_name(host: &str) -> (r: Option<String>)
    ensures
        match r {
            Some(name) => normalized_dns_name(host@) == Some(name@),
            None => normalized_dns_name(host@) is None,
        },
{
    let chars = chars_of(host);
    let n = chars.len();
    let name = if n > 0 && chars[n - 1] == '.' {
        slice_subrange(chars.as_slice(), 0, n - 1)
    } else {
        chars.as_slice()
    };
    assert(name@ =~= without_terminal_dot(host@));
    if name.len() == 0 || name.len() > 253 || parse_ipv4(name).is_some() {
        return None;
    }
    let labels = split_chars(name, '.');
    let ghost parts = text::split(name@, '.');
    assert(parts.len() == labels@.len());
    for i in 0..labels.len()
        invariant
            parts == text::views(labels@),
            parts == text::split(name@, '.'),
            name@ == without_terminal_dot(host@),
            forall|j: int| 0 <= j < i ==> valid_label(#[trigger] parts[j]),
    {
        assert(parts[i as int] == labels@[i as int]@);
        if !label_is_valid(&labels[i]) {
            return None;
        }
    }
    Some(lower_text(name))
}

fn has_one_colon(chars: &[char], first: usize) -> (r: bool)
    requires
        first < chars@.len(),
    ensures
        r == !chars@.skip(first + 1).contains(':'),
{
    for i in first + 1..chars.len()
        invariant
            first < i,
            forall|j: int| first < j < i ==> chars@[j] != ':',
    {
        if chars[i] == ':' {
            assert(chars@.skip(first + 1)[i - first - 1] == ':');
            return false;
        }
    }
    let ghost rest = chars@.skip(first + 1);
    assert forall|j: int| 0 <= j < rest.len() implies rest[j] != ':' by {
        assert(rest[j] == chars@[first + 1 + j]);
    }
    true
}

/// The normal form of a host name that may carry the allowed port.
fn normalize_authority(authority: &str, allowed_port: Option<u16>) -> (r: Option<String>)
    ensures
        match r {
            Some(name) => normalized_authority(authority@, allowed_port) == Some(name@),
            None => normalized_authority(authority@, allowed_port) is None,
        },
{
    proof {
        lemma_normalized_is_plain(authority@, allowed_port);
        text::lemma_first_index(authority@, ':');
        text::lemma_first_index(authority@, '@');
    }
    let chars = chars_of(authority);
    if authority.is_empty() || !authority.is_ascii() || find_char(&chars, '@').is_some() {
        return None;
    }
    let (host, port) = match parse_authority(authority) {
        Some(parts) => parts,
        None => {
            return None;
        },
    };
    let colon = find_char(&chars, ':');
    if let Some(i) = colon {
        let alone = has_one_colon(&chars, i);
        proof {
            if !alone {
                let rest = authority@.skip(i + 1);
                let j = choose|j: int| 0 <= j < rest.len() && rest[j] == ':';
                assert(authority@[i + 1 + j] == ':');
            }
        }
        if !alone || port.is_none() || port != allowed_port {
            return None;
        }
    }
    proof {
        if authority@[0] == '[' {
            lemma_bracket_is_no_name(host@);
        }
    }
    normalize_dns_name(host.as_str())
}

/// The host that a service is configured under.
pub fn normalize_config_host(host: &str) -> (r: Option<String>)
    ensures
        match r {
            Some(name) => normalized_authority(host@, None) == Some(name@),
            None => normalized_authority(host@, None) is None,
        },
{
    normalize_authority(host, None)
}

/// The host that a request asks for.
pub fn normalize_request_host(host: &str, listener_port: u16) -> (r: Option<String>)
    ensures
        match r {
            Some(name) => normalized_authority(host@, Some(listener_port)) == Some(name@),
            None => normalized_authority(host@, Some(listener_port)) is None,
        },
{
    normalize_authority(host, Some(listener_port))
}

proof fn lemma_lower_ipv4(s: Seq<char>)
    ensures
        address::ipv4(text::lower(s)) == address::ipv4(s),
{
    text::lemma_lower_split(s, '.');
    let pieces = text::split(s, '.');
    let folded = text::split(text::lower(s), '.');
    assert forall|i: int| 0 <= i < pieces.len() implies address::octet(
        #[trigger] folded[i],
    ) == address::octet(pieces[i]) by {
        text::lemma_lower_digits(pieces[i], 10, 255);
    }
}

proof fn lemma_lower_valid_name(s: Seq<char>)
    ensures
        valid_dns_name(text::lower(s)) == valid_dns_name(s),
{
    lemma_lower_ipv4(s);
    text::lemma_lower_split(s, '.');
    let pieces = text::split(s, '.');
    let folded = text::split(text::lower(s), '.');
    assert forall|i: int| 0 <= i < pieces.len() implies valid_label(#[trigger] folded[i])
        == valid_label(pieces[i]) by {
        let piece = pieces[i];
        assert(folded[i] == text::lower(piece));
        assert(forall|j: int|
            0 <= j < piece.len() ==> text::lower(piece)[j] == text::lower_char(
                #[trigger] piece[j],
            ));
        if valid_label(folded[i]) {
            assert forall|j: int| 0 <= j < piece.len() implies text::is_alphanumeric(
                #[trigger] piece[j],
            ) || piece[j] == '-' by {
                assert(text::is_alphanumeric(folded[i][j]) || folded[i][j] == '-');
            }
        }
    }
    if valid_dns_name(text::lower(s)) {
        assert forall|i: int| 0 <= i < pieces.len() implies valid_label(#[trigger] pieces[i]) by {
            assert(valid_label(folded[i]));
        }
    }
}

proof fn lemma_lower_twice(s: Seq<char>)
    ensures
        text::lower(text::lower(s)) == text::lower(s),
{
    assert(text::lower(text::lower(s)) =~= text::lower(s));
}

proof fn lemma_lower_dns_name(s: Seq<char>)
    ensures
        normalized_dns_name(text::lower(s)) == normalized_dns_name(s),
{
    let name = without_terminal_dot(s);
    assert(without_terminal_dot(text::lower(s)) =~= text::lower(name));
    lemma_lower_valid_name(name);
    lemma_lower_twice(name);
}

proof fn lemma_lower_first_colon(s: Seq<char>)
    ensures
        text::first_index(text::lower(s), ':') == text::first_index(s, ':'),
{
    let folded = text::lower(s);
    text::lemma_first_index(s, ':');
    text::lemma_first_index(folded, ':');
    assert(forall|i: int| 0 <= i < s.len() ==> (#[trigger] folded[i] == ':' <==> s[i] == ':'));
    if let Some(i) = text::first_index(s, ':') {
        text::lemma_first_index_unique(folded, ':', i);
    } else if let Some(i) = text::first_index(folded, ':') {
        assert(s[i] == ':');
    }
}

/// A valid name does not end with a dot.
proof fn lemma_name_has_no_terminal_dot(s: Seq<char>)
    requires
        valid_dns_name(s),
    ensures
        s.last() != '.',
{
    if s.last() == '.' {
        let labels = text::split(s, '.');
        assert(valid_label(labels[labels.len() - 1]));
    }
}

/// Hosts that differ in case alone normalise alike.
pub proof fn law_host_case_is_ignored(s: Seq<char>, allowed_port: Option<u16>)
    ensures
        normalized_authority(text::lower(s), allowed_port) == normalized_authority(
            s,
            allowed_port,
        ),
{
    lemma_lower_first_colon(s);
    match text::first_index(s, ':') {
        None => lemma_lower_dns_name(s),
        Some(i) => {
            text::lemma_first_index(s, ':');
            assert(text::lower(s).take(i) =~= text::lower(s.take(i)));
            lemma_lower_dns_name(s.take(i));
            let rest = s.skip(i + 1);
            assert(text::lower(s).skip(i + 1) =~= text::lower(rest));
            if rest.len() > 0 {
                assert(text::lower(rest).skip(1) =~= text::lower(rest.skip(1)));
            }
            text::lemma_lower_digits(rest, 10, 0xffff);
            text::lemma_lower_digits(rest.skip(1), 10, 0xffff);
        },
    }
}

/// A configured host is found under its own name, under its name with one
/// terminal dot, with the listener port behind either, and under none of them
/// with another port.
pub proof fn law_host_forms(s: Seq<char>, name: Seq<char>, listener_port: u16, other_port: u16)
    requires
        normalized_authority(s, None) == Some(name),
        other_port != listener_port,
    ensures
        normalized_authority(name, Some(listener_port)) == Some(name),
        normalized_authority(name.push('.'), Some(listener_port)) == Some(name),
        normalized_authority(
            name.push(':') + text::decimal(listener_port as nat),
            Some(listener_port),
        ) == Some(name),
        normalized_authority(
            name.push('.').push(':') + text::decimal(listener_port as nat),
            Some(listener_port),
        ) == Some(name),
        normalized_authority(
            name.push(':') + text::decimal(other_port as nat),
            Some(listener_port),
        ) is None,
        normalized_authority(
            name.push(':') + text::decimal(listener_port as nat),
            None,
        ) is None,
{
    let bare = without_terminal_dot(s);
    lemma_lower_valid_name(bare);
    lemma_lower_twice(bare);
    lemma_name_has_no_terminal_dot(name);
    lemma_dns_name_chars(name);
    lemma_no_colon(name);
    assert(name.push('.').drop_last() =~= name);
    lemma_dotted_has_no_colon(name);
    lemma_with_port(name, listener_port, Some(listener_port));
    lemma_with_port(name.push('.'), listener_port, Some(listener_port));
    lemma_with_port(name, other_port, Some(listener_port));
    lemma_with_port(name, listener_port, None);
}

proof fn lemma_no_colon(name: Seq<char>)
    requires
        valid_dns_name(name),
    ensures
        text::first_index(name, ':') is None,
{
    lemma_dns_name_chars(name);
    text::lemma_first_index(name, ':');
}

proof fn lemma_dotted_has_no_colon(name: Seq<char>)
    requires
        valid_dns_name(name),
    ensures
        text::first_index(name.push('.'), ':') is None,
{
    lemma_dns_name_chars(name);
    text::lemma_first_index(name.push('.'), ':');
}

proof fn lemma_with_port(host: Seq<char>, port: u16, allowed_port: Option<u16>)
    requires
        text::first_index(host, ':') is None,
    ensures
        normalized_authority(host.push(':') + text::decimal(port as nat), allowed_port)
            == if allowed_port == Some(port) {
            normalized_dns_name(host)
        } else {
            None
        },
{
    let digits = text::decimal(port as nat);
    let s = host.push(':') + digits;
    text::lemma_decimal(port as nat);
    text::lemma_first_index(host, ':');
    assert(s[host.len() as int] == ':');
    assert(forall|j: int| 0 <= j < host.len() ==> s[j] == host[j]);
    text::lemma_first_index_unique(s, ':', host.len() as int);
    assert(s.take(host.len() as int) =~= host);
    assert(s.skip(host.len() as int + 1) =~= digits);
    assert(text::is_digit(digits[0]));
}

/// A valid name in lower case is its own normal form.
pub proof fn law_valid_name_is_normal(name: Seq<char>)
    requires
        valid_dns_name(name),
        text::lower(name) == name,
    ensures
        normalized_authority(name, None) == Some(name),
{
    lemma_name_has_no_terminal_dot(name);
    lemma_no_colon(name);
}

/// Normalising what has been normalised changes nothing.
pub proof fn law_host_normal_form_is_stable(
    s: Seq<char>,
    name: Seq<char>,
    first_port: Option<u16>,
    second_port: Option<u16>,
)
    requires
        normalized_authority(s, first_port) == Some(name),
    ensures
        normalized_authority(name, second_port) == Some(name),
        valid_dns_name(name),
        text::lower(name) == name,
{
    let bare = match text::first_index(s, ':') {
        None => without_terminal_dot(s),
        Some(i) => without_terminal_dot(s.take(i)),
    };
    lemma_lower_valid_name(bare);
    lemma_lower_twice(bare);
    lemma_name_has_no_terminal_dot(name);
    lemma_no_colon(name);
}

/// A host name as it may be written: up to 253 letters, digits, hyphens and dots, with
/// no hyphen or dot at an end or beside a dot, and a dot among any 64 characters.
pub open spec fn is_host_text(s: Seq<char>) -> bool {
    &&& 0 < s.len() <= 253
    &&& s[0] != '-' && s[0] != '.' && s[s.len() - 1] != '-' && s[s.len() - 1] != '.'
    &&& forall|i: int|
        0 <= i < s.len() ==> ('a' <= #[trigger] s[i] && s[i] <= 'z') || ('A' <= s[i] && s[i] <= 'Z')
            || ('0' <= s[i] && s[i] <= '9') || s[i] == '-' || s[i] == '.'
    &&& forall|i: int|
        0 < i < s.len() - 1 && #[trigger] s[i] == '.' ==> s[i + 1] != '.' && s[i + 1] != '-' && s[i
            - 1] != '-'
    &&& forall|i: int| 0 <= i && i + 64 <= s.len() ==> #[trigger] has_dot_soon(s, i)
}

/// Whether a dot is among the 64 characters from a place on.
pub open spec fn has_dot_soon(s: Seq<char>, i: int) -> bool {
    exists|k: int| i <= k < i + 64 && #[trigger] s[k] == '.'
}

/// The end of the label that a place is in.
proof fn label_end(s: Seq<char>, i: int) -> (to: int)
    requires
        0 <= i <= s.len(),
    ensures
        i <= to <= s.len(),
        to == s.len() || s[to] == '.',
        forall|k: int| i <= k < to ==> #[trigger] s[k] != '.',
    decreases s.len() - i,
{
    if i == s.len() || s[i] == '.' {
        i
    } else {
        label_end(s, i + 1)
    }
}

/// The start of the label that ends before a place or goes on there.
proof fn label_start(s: Seq<char>, i: int) -> (from: int)
    requires
        0 <= i <= s.len(),
    ensures
        0 <= from <= i,
        from == 0 || s[from - 1] == '.',
        forall|k: int| from <= k < i ==> #[trigger] s[k] != '.',
    decreases i,
{
    if i == 0 || s[i - 1] == '.' {
        i
    } else {
        label_start(s, i - 1)
    }
}

/// The label around a place is valid in a valid name.
proof fn lemma_label_around(s: Seq<char>, i: int) -> (place: (int, int))
    requires
        valid_dns_name(s),
        0 <= i <= s.len(),
    ensures
        0 <= place.0 <= i <= place.1 <= s.len(),
        place.0 == 0 || s[place.0 - 1] == '.',
        place.1 == s.len() || s[place.1] == '.',
        forall|k: int| place.0 <= k < place.1 ==> #[trigger] s[k] != '.',
        valid_label(s.subrange(place.0, place.1)),
{
    let from = label_start(s, i);
    let to = label_end(s, i);
    text::lemma_split_has_piece(s, '.', from, to);
    let labels = text::split(s, '.');
    let k = choose|k: int| 0 <= k < labels.len() && #[trigger] labels[k] == s.subrange(from, to);
    assert(valid_label(labels[k]));
    (from, to)
}

/// A valid name is written as host names are.
proof fn lemma_name_is_host_text(s: Seq<char>)
    requires
        valid_dns_name(s),
    ensures
        is_host_text(s),
{
    lemma_dns_name_chars(s);
    let n = s.len() as int;
    let (a, b) = lemma_label_around(s, 0);
    assert(s.subrange(a, b)[0] == s[0]);
    let (c, d) = lemma_label_around(s, n);
    assert(s.subrange(c, d).last() == s[n - 1]);
    assert forall|i: int| 0 < i < n - 1 && #[trigger] s[i] == '.' implies s[i + 1] != '.' && s[i
        + 1] != '-' && s[i - 1] != '-' by {
        let (e, f) = lemma_label_around(s, i + 1);
        assert(e == i + 1) by {
            if e < i + 1 {
                assert(s[i] != '.');
            }
        }
        assert(s.subrange(e, f)[0] == s[i + 1]);
        let (g, h) = lemma_label_around(s, i);
        assert(h == i) by {
            if h > i {
                assert(s[i] != '.');
            }
        }
        assert(s.subrange(g, h).last() == s[i - 1]);
    }
    assert forall|i: int| 0 <= i && i + 64 <= n implies #[trigger] has_dot_soon(s, i) by {
        let (e, f) = lemma_label_around(s, i);
        assert(f < i + 64);
        assert(s[f] == '.');
    }
}

/// What is written as host names are, and is no IPv4 address, is a valid name.
proof fn lemma_host_text_is_name(s: Seq<char>)
    requires
        is_host_text(s),
        address::ipv4(s) is None,
    ensures
        valid_dns_name(s),
{
    let labels = text::split(s, '.');
    text::lemma_split_joined(s, '.');
    assert forall|j: int| 0 <= j < labels.len() implies valid_label(#[trigger] labels[j]) by {
        let label = labels[j];
        text::lemma_piece_stands_between(s, '.', j);
        let from = choose|from: int| #[trigger] text::stands_between(s, '.', label, from);
        let to = from + label.len();
        assert forall|k: int| 0 <= k < label.len() implies #[trigger] label[k] != '.' && label[k]
            == s[from + k] by {
            assert(labels[j][k] != '.');
        }
        if label.len() == 0 {
            if from > 0 && to < s.len() {
                if from - 1 > 0 {
                    assert(s[from - 1] == '.');
                    assert(s[(from - 1) + 1] != '.');
                } else {
                    assert(s[0] == '.');
                }
            }
            assert(false);
        }
        if label.len() > 63 {
            assert(has_dot_soon(s, from));
            let k = choose|k: int| from <= k < from + 64 && #[trigger] s[k] == '.';
            assert(label[k - from] != '.');
            assert(false);
        }
        assert(label[0] == s[from]);
        assert(label.last() == s[to - 1]);
        if from > 1 {
            assert(s[from - 1] == '.');
            if from - 1 < s.len() - 1 {
                assert(s[(from - 1) + 1] != '-');
            }
        } else if from == 1 {
            assert(s[0] == '.');
        }
        if to < s.len() {
            if to < s.len() - 1 && to > 0 {
                assert(s[to] == '.');
                assert(s[to - 1] != '-');
            }
        }
        assert forall|k: int| 0 <= k < label.len() implies text::is_alphanumeric(
            #[trigger] label[k],
        ) || label[k] == '-' by {
            assert(label[k] == s[from + k]);
        }
    }
}

/// What holds a letter or a hyphen is no IPv4 address.
proof fn lemma_letters_are_no_ipv4(s: Seq<char>, i: int)
    requires
        0 <= i < s.len(),
        ('a' <= s[i] && s[i] <= 'z') || ('A' <= s[i] && s[i] <= 'Z') || s[i] == '-',
    ensures
        address::ipv4(s) is None,
{
    lemma_split_covers(s, '.', i);
    let pieces = text::split(s, '.');
    let (k, j) = choose|k: int, j: int|
        0 <= k < pieces.len() && 0 <= j < pieces[k].len() && #[trigger] pieces[k][j] == s[i];
    if address::ipv4(s) is Some {
        assert(address::octet(pieces[k]) is Some);
        assert(text::digit_value(pieces[k][j]) < 10);
    }
}

/// Whether a text is told apart from an IPv4 address: by a letter or a hyphen at some
/// place, or by having no dot.
pub open spec fn is_no_ipv4_text(s: Seq<char>, at: int) -> bool {
    ||| 0 <= at < s.len() && (('a' <= s[at] && s[at] <= 'z') || ('A' <= s[at] && s[at] <= 'Z')
        || s[at] == '-')
    ||| !s.contains('.')
}

proof fn lemma_no_ipv4_text(s: Seq<char>, at: int)
    requires
        is_no_ipv4_text(s, at),
    ensures
        address::ipv4(s) is None,
{
    if s.contains('.') {
        lemma_letters_are_no_ipv4(s, at);
    } else {
        assert forall|j: int| 0 <= j < s.len() implies s[j] != '.' by {
            assert(s.contains(s[j]));
        }
        text::lemma_split_whole(s, '.');
    }
}

/// Whether a text is another in lower case.
pub open spec fn is_lower_case_of(folded: Seq<char>, s: Seq<char>) -> bool {
    &&& folded.len() == s.len()
    &&& forall|i: int|
        0 <= i < s.len() ==> (if 'A' <= s[i] && s[i] <= 'Z' {
            #[trigger] folded[i] == (s[i] as u32 + 0x20) as char
        } else {
            folded[i] == s[i]
        })
}

proof fn lemma_lower_case_of(s: Seq<char>)
    ensures
        is_lower_case_of(text::lower(s), s),
{
}

/// A text in lower case is the text folded.
pub proof fn lemma_is_lower_case(folded: Seq<char>, s: Seq<char>)
    requires
        is_lower_case_of(folded, s),
    ensures
        folded == text::lower(s),
{
    assert forall|i: int| 0 <= i < s.len() implies folded[i] == text::lower(s)[i] by {
        assert(text::lower(s)[i] == text::lower_char(s[i]));
        if 'A' <= s[i] && s[i] <= 'Z' {
            assert(folded[i] == (s[i] as u32 + 0x20) as char);
        } else {
            assert(folded[i] == s[i]);
        }
    }
    assert(folded =~= text::lower(s));
}

/// A service can be configured under every text that is written as host names are and
/// is told apart from an address, with one dot behind it or without, and is then found
/// under it in lower case; and under no text that is not written so.
pub proof fn law_configured_hosts_are_taken(host: &str, name: Seq<char>, at: int, r: Option<String>)
    requires
        call_ensures(normalize_config_host, (host,), r),
        host@ == name || host@ == name.push('.'),
        name.len() > 0 && name[name.len() - 1] != '.',
    ensures
        is_host_text(name) && is_no_ipv4_text(name, at) ==> r is Some,
        r matches Some(found) ==> is_host_text(name) && is_lower_case_of(found@, name),
{
    lemma_lower_case_of(name);
    assert(name.push('.').drop_last() =~= name);
    assert(without_terminal_dot(host@) == name);
    text::lemma_first_index(host@, ':');
    if is_host_text(name) && is_no_ipv4_text(name, at) {
        lemma_no_ipv4_text(name, at);
        lemma_host_text_is_name(name);
        lemma_no_colon(name);
        lemma_dotted_has_no_colon(name);
    }
    if r is Some {
        lemma_name_is_host_text(name);
    }
}

/// What is an IPv4 address, is empty, or holds a colon is no host to configure.
pub proof fn law_addresses_are_no_hosts(host: &str, chars: &[char], address: Option<u32>, r: Option<String>)
    requires
        call_ensures(normalize_config_host, (host,), r),
        chars@ == host@,
        call_ensures(parse_ipv4, (chars,), address),
        address is Some || host@.len() == 0 || host@.contains(':'),
    ensures
        r is None,
{
    text::lemma_first_index(host@, ':');
    if address is Some {
        let s = host@;
        let pieces = text::split(s, '.');
        if s.len() > 0 && s.last() == '.' {
            assert(pieces.last() =~= Seq::<char>::empty());
            assert(address::octet(pieces[3]) is Some);
            assert(false);
        }
    }
}

/// A request finds a service under its name in any case, with one dot behind it or
/// without, and with the listener port behind either; with another port it does not.
pub proof fn law_requested_hosts_are_taken(
    host: &str,
    listener_port: u16,
    name: Seq<char>,
    at: int,
    port: u16,
    r: Option<String>,
)
    requires
        call_ensures(normalize_request_host, (host, listener_port), r),
        is_host_text(name),
        is_no_ipv4_text(name, at),
    ensures
        host@ == name || host@ == name.push('.') ==> r is Some && is_lower_case_of(r->0@, name),
        host@ == name.push(':') + text::decimal(port as nat) || host@ == name.push('.').push(':')
            + text::decimal(port as nat) ==> (r is Some <==> port == listener_port),
        (host@ == name.push(':') + text::decimal(port as nat) || host@ == name.push('.').push(':')
            + text::decimal(port as nat)) && port == listener_port ==> is_lower_case_of(
            r->0@,
            name,
        ),
{
    lemma_spelled_host(name, at, listener_port, port);
    lemma_lower_case_of(name);
}

/// What the spellings of a host normalise to.
pub proof fn lemma_spelled_host(name: Seq<char>, at: int, listener_port: u16, port: u16)
    requires
        is_host_text(name),
        is_no_ipv4_text(name, at),
    ensures
        normalized_authority(name, Some(listener_port)) == Some(text::lower(name)),
        normalized_authority(name.push('.'), Some(listener_port)) == Some(text::lower(name)),
        normalized_authority(name.push(':') + text::decimal(port as nat), Some(listener_port))
            == if port == listener_port {
            Some(text::lower(name))
        } else {
            None
        },
        normalized_authority(
            name.push('.').push(':') + text::decimal(port as nat),
            Some(listener_port),
        ) == if port == listener_port {
            Some(text::lower(name))
        } else {
            None
        },
{
    lemma_no_ipv4_text(name, at);
    lemma_host_text_is_name(name);
    lemma_no_colon(name);
    lemma_dotted_has_no_colon(name);
    lemma_name_has_no_terminal_dot(name);
    assert(name.push('.').drop_last() =~= name);
    lemma_with_port(name, port, Some(listener_port));
    lemma_with_port(name.push('.'), port, Some(listener_port));
}

/// A request's host that is found is written as host names are, before the port, if it
/// has one, and with one dot at most behind it.
pub proof fn law_found_hosts_are_names(host: &str, listener_port: u16, r: Option<String>) -> (name:
    Seq<char>)
    requires
        call_ensures(normalize_request_host, (host, listener_port), r),
        r is Some,
    ensures
        is_host_text(name),
        is_lower_case_of(r->0@, name),
        host@ == name || host@ == name.push('.') || name.push(':').is_prefix_of(host@)
            || name.push('.').push(':').is_prefix_of(host@),
{
    lemma_found_host(host@, Some(listener_port))
}

/// The name that a host which normalises begins with.
pub proof fn lemma_found_host(s: Seq<char>, allowed_port: Option<u16>) -> (name: Seq<char>)
    requires
        normalized_authority(s, allowed_port) is Some,
    ensures
        is_host_text(name),
        is_lower_case_of(normalized_authority(s, allowed_port)->0, name),
        s == name || s == name.push('.') || name.push(':').is_prefix_of(s)
            || name.push('.').push(':').is_prefix_of(s),
        name.len() <= s.len(),
        forall|k: int| 0 <= k < name.len() ==> s[k] == #[trigger] name[k],
{
    text::lemma_first_index(s, ':');
    let part = before_colon(s);
    let name = without_terminal_dot(part);
    lemma_name_is_host_text(name);
    lemma_lower_case_of(name);
    assert(part == name || part =~= name.push('.'));
    if let Some(i) = text::first_index(s, ':') {
        assert(part == s.take(i));
        assert(s.take(i + 1) =~= part.push(':'));
        assert(part.push(':').is_prefix_of(s));
    }
    assert forall|k: int| 0 <= k < name.len() implies s[k] == #[trigger] name[k] by {
        assert(part[k] == name[k]);
    }
    name
}

} // verus!
