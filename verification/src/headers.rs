//! HTTP header fields: which are forwarded, and what makes a WebSocket upgrade.
use http::HeaderMap;
use http::header::{HeaderName, HeaderValue};
use vstd::prelude::*;

use crate::text;

verus! {

/// `http::HeaderMap`, opaque.
#[verifier::external_type_specification]
#[verifier::external_body]
#[verifier::reject_recursive_types(T)]
pub struct ExHeaderMap<T>(HeaderMap<T>);

/// `http::HeaderValue`, opaque.
#[verifier::external_type_specification]
#[verifier::external_body]
pub struct ExHeaderValue(HeaderValue);

/// The fields of a header: the values of each name, in their order. Names are in
/// lower case, and no name is there without a value.
pub uninterp spec fn header_fields(headers: HeaderMap) -> Map<Seq<char>, Seq<Seq<u8>>>;

/// The number of names up to which a field can always be added.
pub const FIELD_ROOM: usize = 4_096;

/// A byte of a field name: a letter, a digit or one of fifteen marks.
pub open spec fn is_name_byte(b: u8) -> bool {
    (0x30 <= b && b <= 0x39) || (0x41 <= b && b <= 0x5a) || (0x61 <= b && b <= 0x7a) || b == 0x21
        || (0x23 <= b && b <= 0x27) || b == 0x2a || b == 0x2b || b == 0x2d || b == 0x2e || b == 0x5e
        || b == 0x5f || b == 0x60 || b == 0x7c || b == 0x7e
}

/// A byte in lower case, where it is an ASCII letter.
pub open spec fn lower_byte(b: u8) -> u8 {
    if 0x41 <= b && b <= 0x5a {
        (b + 0x20) as u8
    } else {
        b
    }
}

/// Bytes in lower case.
pub open spec fn lower_bytes(s: Seq<u8>) -> Seq<u8> {
    s.map_values(|b: u8| lower_byte(b))
}

/// The text of ASCII bytes.
pub open spec fn ascii_text(s: Seq<u8>) -> Seq<char> {
    s.map_values(|b: u8| b as char)
}

/// The field name that the bytes spell, in lower case.
pub open spec fn field_name(s: Seq<u8>) -> Option<Seq<char>> {
    if 0 < s.len() <= 0xffff && forall|i: int| 0 <= i < s.len() ==> is_name_byte(#[trigger] s[i]) {
        Some(ascii_text(lower_bytes(s)))
    } else {
        None
    }
}

/// The values of a name.
pub open spec fn values_of(fields: Map<Seq<char>, Seq<Seq<u8>>>, name: Seq<char>) -> Seq<Seq<u8>> {
    if fields.contains_key(name) {
        fields[name]
    } else {
        Seq::<Seq<u8>>::empty()
    }
}

/// A field name in lower case.
pub open spec fn is_field_name(name: Seq<char>) -> bool {
    0 < name.len() <= 0xffff && forall|i: int|
        0 <= i < name.len() ==> is_lower_name_char(#[trigger] name[i])
}

/// A character of a field name in lower case.
pub open spec fn is_lower_name_char(c: char) -> bool {
    (c as u32) < 0x80 && is_name_byte(c as u8) && !('A' <= c && c <= 'Z')
}

/// The bytes of an ASCII text.
pub open spec fn ascii_bytes(text: Seq<char>) -> Seq<u8> {
    text.map_values(|c: char| c as u8)
}

/// A text that a field can hold: visible ASCII.
pub open spec fn is_visible_text(text: Seq<char>) -> bool {
    forall|i: int| 0 <= i < text.len() ==> ' ' <= #[trigger] text[i] && text[i] <= '~'
}

/// `HeaderMap::get_all`, the bytes of each value.
#[verifier::external_body]
pub(crate) fn header_values(headers: &HeaderMap, name: &str) -> (values: Vec<Vec<u8>>)
    requires
        is_field_name(name@),
    ensures
        text::views(values@) == values_of(header_fields(*headers), name@),
{
    headers.get_all(name).iter().map(|value| value.as_bytes().to_vec()).collect()
}

/// `HeaderMap::remove` takes a name with all its values away. The names that are
/// left are finitely many, as in every header.
#[verifier::external_body]
fn remove_header(headers: &mut HeaderMap, name: &str)
    requires
        is_field_name(name@),
    ensures
        header_fields(*final(headers)) == header_fields(*old(headers)).remove(name@),
        header_fields(*final(headers)).dom().finite(),
{
    headers.remove(name);
}

/// `HeaderMap::try_insert` gives a name one value in place of those it had. It
/// does not where there is no room, and then leaves the fields as they are. With
/// few enough names there always is room; with more of them it depends on how the
/// map has grown, which is not stated.
#[verifier::external_body]
pub(crate) fn insert_header(headers: &mut HeaderMap, name: &'static str, value: &'static str) -> (inserted: bool)
    requires
        is_field_name(name@),
        is_visible_text(value@),
    ensures
        header_fields(*final(headers)) == if inserted {
            header_fields(*old(headers)).insert(name@, seq![ascii_bytes(value@)])
        } else {
            header_fields(*old(headers))
        },
        header_fields(*old(headers)).dom().len() <= FIELD_ROOM ==> inserted,
{
    headers.try_insert(HeaderName::from_static(name), HeaderValue::from_static(value)).is_ok()
}

/// `HeaderName::from_bytes`: the name in lower case, where the bytes are one.
#[verifier::external_body]
fn parse_field_name(bytes: &[u8]) -> (name: Option<String>)
    ensures
        match name {
            Some(name) => field_name(bytes@) == Some(name@),
            None => field_name(bytes@) is None,
        },
{
    HeaderName::from_bytes(bytes).ok().map(|name| name.as_str().to_owned())
}

/// ASCII white space: tab, line feed, form feed, carriage return and space.
pub open spec fn is_ascii_space(b: u8) -> bool {
    b == 0x9 || b == 0xa || b == 0xc || b == 0xd || b == 0x20
}

/// Bytes without the white space at either end.
pub open spec fn trimmed(s: Seq<u8>) -> Seq<u8>
    decreases s.len(),
{
    if s.len() == 0 {
        s
    } else if is_ascii_space(s[0]) {
        trimmed(s.skip(1))
    } else if is_ascii_space(s.last()) {
        trimmed(s.drop_last())
    } else {
        s
    }
}

/// The members of a comma-separated list.
pub open spec fn members(value: Seq<u8>) -> Seq<Seq<u8>> {
    text::split(value, 0x2c).map_values(|piece: Seq<u8>| trimmed(piece))
}

/// Whether one of the values lists the token, in any case.
pub open spec fn lists_token(values: Seq<Seq<u8>>, token: Seq<u8>) -> bool {
    exists|i: int, j: int|
        0 <= i < values.len() && 0 <= j < members(values[i]).len() && lower_bytes(
            #[trigger] members(values[i])[j],
        ) == lower_bytes(token)
}

/// Whether one of the values is the text, in any case.
pub open spec fn has_value(values: Seq<Seq<u8>>, text: Seq<u8>) -> bool {
    exists|i: int|
        0 <= i < values.len() && lower_bytes(#[trigger] values[i]) == lower_bytes(text)
}

fn is_space(b: u8) -> (r: bool)
    ensures
        r == is_ascii_space(b),
{
    b == 0x9 || b == 0xa || b == 0xc || b == 0xd || b == 0x20
}

/// The bytes without the white space at either end.
pub fn trim_ascii_whitespace(value: &[u8]) -> (r: &[u8])
    ensures
        r@ == trimmed(value@),
{
    let mut start: usize = 0;
    let end = value.len();
    assert(value@.subrange(0, end as int) =~= value@);
    while start < end && is_space(value[start])
        invariant
            start <= end == value@.len(),
            trimmed(value@) == trimmed(value@.subrange(start as int, end as int)),
        decreases end - start,
    {
        assert(value@.subrange(start as int, end as int).skip(1) =~= value@.subrange(
            start + 1,
            end as int,
        ));
        start = start + 1;
    }
    let mut stop: usize = end;
    while start < stop && is_space(value[stop - 1])
        invariant
            start <= stop <= value@.len(),
            start < stop ==> !is_ascii_space(value@[start as int]),
            trimmed(value@) == trimmed(value@.subrange(start as int, stop as int)),
        decreases stop - start,
    {
        assert(value@.subrange(start as int, stop as int).drop_last() =~= value@.subrange(
            start as int,
            stop - 1,
        ));
        stop = stop - 1;
    }
    vstd::slice::slice_subrange(value, start, stop)
}

fn split_bytes(bytes: &[u8], sep: u8) -> (pieces: Vec<Vec<u8>>)
    ensures
        text::views(pieces@) == text::split(bytes@, sep),
{
    let mut pieces: Vec<Vec<u8>> = Vec::new();
    let mut current: Vec<u8> = Vec::new();
    assert(text::views(pieces@).push(current@) =~= text::split(bytes@.take(0), sep));
    for i in 0..bytes.len()
        invariant
            text::views(pieces@).push(current@) == text::split(
                bytes@.take(i as int),
                sep,
            ),
    {
        let ghost prefix = bytes@.take(i as int);
        let ghost split = text::split(prefix, sep);
        assert(bytes@.take(i + 1).drop_last() =~= prefix);
        assert(split.drop_last() =~= text::views(pieces@));
        assert(split.last() == current@);
        if bytes[i] == sep {
            let ghost before = pieces@;
            let ghost held = current@;
            pieces.push(current);
            current = Vec::new();
            assert(text::views(pieces@) =~= text::views(before).push(held));
            assert(current@ =~= Seq::<u8>::empty());
        } else {
            current.push(bytes[i]);
        }
    }
    assert(bytes@.take(bytes@.len() as int) =~= bytes@);
    let ghost before = pieces@;
    let ghost held = current@;
    pieces.push(current);
    assert(text::views(pieces@) =~= text::views(before).push(held));
    pieces
}

fn to_lower_byte(b: u8) -> (r: u8)
    ensures
        r == lower_byte(b),
{
    if 0x41 <= b && b <= 0x5a {
        b + 0x20
    } else {
        b
    }
}

fn eq_ignore_ascii_case(a: &[u8], b: &[u8]) -> (r: bool)
    ensures
        r == (lower_bytes(a@) == lower_bytes(b@)),
{
    if a.len() != b.len() {
        assert(lower_bytes(a@).len() != lower_bytes(b@).len());
        return false;
    }
    for i in 0..a.len()
        invariant
            a@.len() == b@.len(),
            forall|j: int| 0 <= j < i ==> lower_byte(a@[j]) == lower_byte(b@[j]),
    {
        if to_lower_byte(a[i]) != to_lower_byte(b[i]) {
            assert(lower_bytes(a@)[i as int] != lower_bytes(b@)[i as int]);
            return false;
        }
    }
    assert(lower_bytes(a@) =~= lower_bytes(b@));
    true
}

fn lists_token_in(value: &[u8], expected: &[u8]) -> (r: bool)
    ensures
        r == exists|j: int|
            0 <= j < members(value@).len() && lower_bytes(#[trigger] members(value@)[j])
                == lower_bytes(expected@),
{
    let pieces = split_bytes(value, 0x2c);
    let ghost all = members(value@);
    for j in 0..pieces.len()
        invariant
            all == members(value@),
            text::views(pieces@) == text::split(value@, 0x2c),
            forall|k: int| 0 <= k < j ==> lower_bytes(#[trigger] all[k]) != lower_bytes(expected@),
    {
        let token = trim_ascii_whitespace(&pieces[j]);
        assert(text::views(pieces@)[j as int] == pieces@[j as int]@);
        assert(all[j as int] == token@);
        if eq_ignore_ascii_case(token, expected) {
            return true;
        }
    }
    false
}

/// Whether a field lists the token, in any case.
pub fn header_contains_token(headers: &HeaderMap, name: &str, expected: &[u8]) -> (r: bool)
    requires
        is_field_name(name@),
    ensures
        r == lists_token(values_of(header_fields(*headers), name@), expected@),
{
    let values = header_values(headers, name);
    let ghost all = values_of(header_fields(*headers), name@);
    for i in 0..values.len()
        invariant
            all == text::views(values@),
            all == values_of(header_fields(*headers), name@),
            forall|k: int, j: int|
                0 <= k < i && 0 <= j < members(all[k]).len() ==> lower_bytes(
                    #[trigger] members(all[k])[j],
                ) != lower_bytes(expected@),
    {
        assert(all[i as int] == values@[i as int]@);
        if lists_token_in(&values[i], expected) {
            let ghost j = choose|j: int|
                0 <= j < members(all[i as int]).len() && lower_bytes(
                    #[trigger] members(all[i as int])[j],
                ) == lower_bytes(expected@);
            assert(lower_bytes(members(all[i as int])[j]) == lower_bytes(expected@));
            return true;
        }
    }
    false
}

fn header_has_value(headers: &HeaderMap, name: &str, expected: &[u8]) -> (r: bool)
    requires
        is_field_name(name@),
    ensures
        r == has_value(values_of(header_fields(*headers), name@), expected@),
{
    let values = header_values(headers, name);
    let ghost all = values_of(header_fields(*headers), name@);
    for i in 0..values.len()
        invariant
            all == text::views(values@),
            all == values_of(header_fields(*headers), name@),
            forall|k: int| 0 <= k < i ==> lower_bytes(#[trigger] all[k]) != lower_bytes(expected@),
    {
        assert(all[i as int] == values@[i as int]@);
        if eq_ignore_ascii_case(&values[i], expected) {
            return true;
        }
    }
    false
}

/// Whether the `Connection` fields name a field.
pub open spec fn names_field(values: Seq<Seq<u8>>, name: Seq<char>) -> bool {
    exists|i: int, j: int|
        0 <= i < values.len() && 0 <= j < members(values[i]).len() && field_name(
            #[trigger] members(values[i])[j],
        ) == Some(name)
}

/// The fields that a connection keeps to itself, whatever it names.
pub open spec fn is_bounded(name: Seq<char>) -> bool {
    name == "proxy-connection"@ || name == "keep-alive"@ || name == "proxy-authenticate"@ || name
        == "te"@ || name == "trailer"@ || name == "transfer-encoding"@
}

/// Whether a field concerns only one connection: those that are always bounded,
/// `Connection` with every field it names, and `Upgrade`. Where an upgrade is
/// retained, `Connection` and `Upgrade` stay.
pub open spec fn is_hop_field(
    fields: Map<Seq<char>, Seq<Seq<u8>>>,
    retain_upgrade: bool,
    name: Seq<char>,
) -> bool {
    ||| is_bounded(name)
    ||| !retain_upgrade && (name == "connection"@ || name == "upgrade"@)
    ||| names_field(values_of(fields, "connection"@), name) && !(retain_upgrade && name
        == "upgrade"@)
}

/// The fields without those that concern one connection only; a retained
/// upgrade is written in its plain form.
pub open spec fn forwarded_fields(
    fields: Map<Seq<char>, Seq<Seq<u8>>>,
    retain_upgrade: bool,
    and_without: spec_fn(Seq<char>) -> bool,
) -> Map<Seq<char>, Seq<Seq<u8>>> {
    let kept = Map::new(
        |name: Seq<char>|
            fields.contains_key(name) && !is_hop_field(fields, retain_upgrade, name)
                && !and_without(name),
        |name: Seq<char>| fields[name],
    );
    if retain_upgrade {
        kept.insert("connection"@, seq![ascii_bytes("Upgrade"@)]).insert(
            "upgrade"@,
            seq![ascii_bytes("websocket"@)],
        )
    } else {
        kept
    }
}

/// The fields of a request as they are forwarded.
pub open spec fn forwarded_request_fields(
    fields: Map<Seq<char>, Seq<Seq<u8>>>,
    retain_upgrade: bool,
) -> Map<Seq<char>, Seq<Seq<u8>>> {
    forwarded_fields(fields, retain_upgrade, |name: Seq<char>| name == "proxy-authorization"@)
}

/// The fields of a response as they are forwarded.
pub open spec fn forwarded_response_fields(
    fields: Map<Seq<char>, Seq<Seq<u8>>>,
    retain_upgrade: bool,
) -> Map<Seq<char>, Seq<Seq<u8>>> {
    forwarded_fields(fields, retain_upgrade, |name: Seq<char>| false)
}

/// The names of the fields that this module asks for are names.
pub proof fn lemma_known_names()
    ensures
        is_field_name("accept"@),
        is_field_name("connection"@),
        is_field_name("host"@),
        is_field_name("upgrade"@),
        is_field_name("proxy-authorization"@),
        is_field_name("proxy-connection"@),
        is_field_name("keep-alive"@),
        is_field_name("proxy-authenticate"@),
        is_field_name("te"@),
        is_field_name("trailer"@),
        is_field_name("transfer-encoding"@),
        is_field_name("content-length"@),
        is_visible_text("Upgrade"@),
        is_visible_text("websocket"@),
        is_visible_text("chunked"@),
{
    reveal_strlit("accept");
    reveal_strlit("connection");
    reveal_strlit("host");
    reveal_strlit("upgrade");
    reveal_strlit("proxy-authorization");
    reveal_strlit("proxy-connection");
    reveal_strlit("keep-alive");
    reveal_strlit("proxy-authenticate");
    reveal_strlit("te");
    reveal_strlit("trailer");
    reveal_strlit("transfer-encoding");
    reveal_strlit("content-length");
    reveal_strlit("Upgrade");
    reveal_strlit("websocket");
    reveal_strlit("chunked");
}

proof fn lemma_field_name(s: Seq<u8>)
    ensures
        field_name(s) matches Some(name) ==> is_field_name(name),
{
    if let Some(name) = field_name(s) {
        assert forall|i: int| 0 <= i < name.len() implies is_lower_name_char(#[trigger] name[i]) by {
            assert(is_name_byte(s[i]));
            assert(name[i] == lower_byte(s[i]) as char);
        }
    }
}

/// The field names among the members of a list, in their order; what is no name is
/// left out.
pub open spec fn names_among(members: Seq<Seq<u8>>) -> Seq<Seq<char>>
    decreases members.len(),
{
    if members.len() == 0 {
        Seq::<Seq<char>>::empty()
    } else {
        match field_name(members.last()) {
            Some(name) => names_among(members.drop_last()).push(name),
            None => names_among(members.drop_last()),
        }
    }
}

/// The field names that the values list, in their order and as often as they are
/// listed.
pub open spec fn listed_names(values: Seq<Seq<u8>>) -> Seq<Seq<char>>
    decreases values.len(),
{
    if values.len() == 0 {
        Seq::<Seq<char>>::empty()
    } else {
        listed_names(values.drop_last()) + names_among(members(values.last()))
    }
}

proof fn lemma_names_among(members: Seq<Seq<u8>>, name: Seq<char>)
    ensures
        names_among(members).contains(name) <==> exists|j: int|
            0 <= j < members.len() && field_name(#[trigger] members[j]) == Some(name),
        forall|k: int|
            0 <= k < names_among(members).len() ==> is_field_name(
                #[trigger] names_among(members)[k],
            ),
    decreases members.len(),
{
    if members.len() > 0 {
        let front = members.drop_last();
        let before = names_among(front);
        let all = names_among(members);
        lemma_names_among(front, name);
        lemma_field_name(members.last());
        if before.contains(name) {
            let j = choose|j: int|
                0 <= j < front.len() && field_name(#[trigger] front[j]) == Some(name);
            assert(field_name(members[j]) == Some(name));
            let k = choose|k: int| 0 <= k < before.len() && before[k] == name;
            assert(all[k] == name);
        }
        if field_name(members.last()) == Some(name) {
            assert(field_name(members[members.len() - 1]) == Some(name));
            assert(all[all.len() - 1] == name);
        }
        if all.contains(name) && !before.contains(name) {
            let k = choose|k: int| 0 <= k < all.len() && all[k] == name;
            if k < before.len() {
                assert(before[k] == name);
            }
            assert(field_name(members[members.len() - 1]) == Some(name));
        }
        if exists|j: int| 0 <= j < members.len() && field_name(#[trigger] members[j]) == Some(name) {
            let j = choose|j: int|
                0 <= j < members.len() && field_name(#[trigger] members[j]) == Some(name);
            if j < front.len() {
                assert(field_name(front[j]) == Some(name));
            }
        }
    }
}

/// A name is listed when one of the values names it.
proof fn lemma_listed_names(values: Seq<Seq<u8>>, name: Seq<char>)
    ensures
        listed_names(values).contains(name) <==> names_field(values, name),
        forall|k: int|
            0 <= k < listed_names(values).len() ==> is_field_name(
                #[trigger] listed_names(values)[k],
            ),
    decreases values.len(),
{
    if values.len() > 0 {
        let front = values.drop_last();
        let before = listed_names(front);
        let last = members(values.last());
        let added = names_among(last);
        let all = listed_names(values);
        lemma_listed_names(front, name);
        lemma_names_among(last, name);
        assert forall|k: int| 0 <= k < all.len() implies is_field_name(#[trigger] all[k]) by {
            if k < before.len() {
                assert(all[k] == before[k]);
            } else {
                assert(all[k] == added[k - before.len()]);
            }
        }
        if before.contains(name) {
            let k = choose|k: int| 0 <= k < before.len() && before[k] == name;
            assert(all[k] == name);
            let (i, j) = choose|i: int, j: int|
                0 <= i < front.len() && 0 <= j < members(front[i]).len() && field_name(
                    #[trigger] members(front[i])[j],
                ) == Some(name);
            assert(front[i] == values[i]);
            assert(field_name(members(values[i])[j]) == Some(name));
        }
        if added.contains(name) {
            let k = choose|k: int| 0 <= k < added.len() && added[k] == name;
            assert(all[before.len() + k] == name);
            let j = choose|j: int|
                0 <= j < last.len() && field_name(#[trigger] last[j]) == Some(name);
            assert(field_name(members(values[values.len() - 1])[j]) == Some(name));
        }
        if all.contains(name) {
            let k = choose|k: int| 0 <= k < all.len() && all[k] == name;
            if k < before.len() {
                assert(before[k] == name);
            } else {
                assert(added[k - before.len()] == name);
            }
        }
        if names_field(values, name) {
            let (i, j) = choose|i: int, j: int|
                0 <= i < values.len() && 0 <= j < members(values[i]).len() && field_name(
                    #[trigger] members(values[i])[j],
                ) == Some(name);
            if i < front.len() {
                assert(front[i] == values[i]);
                assert(field_name(members(front[i])[j]) == Some(name));
            } else {
                assert(field_name(last[j]) == Some(name));
            }
        }
    }
}

/// Appends the names that one value of `Connection` lists.
fn append_names(value: &[u8], names: &mut Vec<String>)
    ensures
        text::texts(final(names)@) == text::texts(old(names)@) + names_among(members(value@)),
{
    let pieces = split_bytes(value, 0x2c);
    let ghost all = members(value@);
    let ghost before = text::texts(names@);
    assert(before + names_among(all.take(0)) =~= before);
    for j in 0..pieces.len()
        invariant
            all == members(value@),
            text::views(pieces@) == text::split(value@, 0x2c),
            text::texts(names@) == before + names_among(all.take(j as int)),
    {
        let token = trim_ascii_whitespace(&pieces[j]);
        assert(text::views(pieces@)[j as int] == pieces@[j as int]@);
        assert(all[j as int] == token@);
        assert(all.take(j + 1).drop_last() =~= all.take(j as int));
        let ghost held = names@;
        if let Some(name) = parse_field_name(token) {
            let ghost added = name@;
            names.push(name);
            assert(text::texts(names@) =~= text::texts(held).push(added));
        }
        assert(text::texts(names@) =~= before + names_among(all.take(j + 1)));
    }
    assert(all.take(all.len() as int) =~= all);
}

/// The names of the fields that `Connection` names, in their order and as often as
/// it names them.
pub fn connection_header_names(headers: &HeaderMap) -> (names: Vec<String>)
    ensures
        text::texts(names@) == listed_names(values_of(header_fields(*headers), "connection"@)),
{
    proof {
        lemma_known_names();
    }
    let values = header_values(headers, "connection");
    let ghost all = values_of(header_fields(*headers), "connection"@);
    let mut names: Vec<String> = Vec::new();
    assert(text::texts(names@) =~= listed_names(all.take(0)));
    for i in 0..values.len()
        invariant
            all == text::views(values@),
            text::texts(names@) == listed_names(all.take(i as int)),
    {
        append_names(&values[i], &mut names);
        assert(all[i as int] == values@[i as int]@);
        assert(all.take(i + 1).drop_last() =~= all.take(i as int));
    }
    assert(all.take(all.len() as int) =~= all);
    names
}

/// There was no room to write the fields of an upgrade.
#[derive(Clone, Copy, Debug, PartialEq, Eq, Structural)]
pub struct FieldsFull;

/// The head of a request.
pub struct RequestHead {
    pub method: String,
    /// Whether the request is made in HTTP/1.1.
    pub http_11: bool,
    pub headers: HeaderMap,
}

/// The head of a response.
pub struct ResponseHead {
    pub status: u16,
    pub headers: HeaderMap,
}

/// The fields but those that a test picks out.
pub open spec fn fields_without(
    fields: Map<Seq<char>, Seq<Seq<u8>>>,
    unwanted: spec_fn(Seq<char>) -> bool,
) -> Map<Seq<char>, Seq<Seq<u8>>> {
    Map::new(
        |name: Seq<char>| fields.contains_key(name) && !unwanted(name),
        |name: Seq<char>| fields[name],
    )
}

/// Takes away the fields that `Connection` names, but not a retained `Upgrade`.
fn strip_named_headers(headers: &mut HeaderMap, retain_upgrade: bool)
    ensures
        header_fields(*final(headers)) == fields_without(
            header_fields(*old(headers)),
            |name: Seq<char>|
                names_field(values_of(header_fields(*old(headers)), "connection"@), name) && !(
                retain_upgrade && name == "upgrade"@),
        ),
        header_fields(*final(headers)).dom().finite() ==> header_fields(
            *old(headers),
        ).dom().finite(),
{
    let names = connection_header_names(headers);
    let ghost fields = header_fields(*headers);
    let ghost all = text::texts(names@);
    proof {
        let values = values_of(fields, "connection"@);
        assert forall|name: Seq<char>| #[trigger] all.contains(name) <==> names_field(
            values,
            name,
        ) by {
            lemma_listed_names(values, name);
        }
        lemma_listed_names(values, Seq::<char>::empty());
        assert forall|k: int| 0 <= k < names@.len() implies is_field_name(
            #[trigger] names@[k]@,
        ) by {
            assert(all[k] == names@[k]@);
        }
    }
    assert(header_fields(*headers) =~= fields_without(
        fields,
        |name: Seq<char>| all.take(0).contains(name) && !(retain_upgrade && name == "upgrade"@),
    ));
    for i in 0..names.len()
        invariant
            all == text::texts(names@),
            forall|k: int| 0 <= k < names@.len() ==> is_field_name(#[trigger] names@[k]@),
            header_fields(*headers) == fields_without(
                fields,
                |name: Seq<char>|
                    all.take(i as int).contains(name) && !(retain_upgrade && name == "upgrade"@),
            ),
    {
        let ghost before = header_fields(*headers);
        let ghost prior = all.take(i as int);
        let ghost upto = all.take(i + 1);
        assert(upto =~= prior.push(all[i as int]));
        assert(all[i as int] == names@[i as int]@);
        assert forall|name: Seq<char>| #[trigger] upto.contains(name) <==> prior.contains(name)
            || name == all[i as int] by {
            if prior.contains(name) {
                let k = choose|k: int| 0 <= k < prior.len() && prior[k] == name;
                assert(upto[k] == name);
            }
            if name == all[i as int] {
                assert(upto[i as int] == name);
            }
            if upto.contains(name) {
                let k = choose|k: int| 0 <= k < upto.len() && upto[k] == name;
                if k < i {
                    assert(prior[k] == name);
                }
            }
        }
        if !(retain_upgrade && *names[i].as_str() == *"upgrade") {
            remove_header(headers, names[i].as_str());
        }
        assert(header_fields(*headers) =~= fields_without(
            fields,
            |name: Seq<char>| upto.contains(name) && !(retain_upgrade && name == "upgrade"@),
        ));
    }
    assert(all.take(all.len() as int) =~= all);
    assert(header_fields(*headers) =~= fields_without(
        fields,
        |name: Seq<char>|
            names_field(values_of(fields, "connection"@), name) && !(retain_upgrade && name
                == "upgrade"@),
    ));
    proof {
        let kept = header_fields(*headers);
        if kept.dom().finite() {
            vstd::seq_lib::seq_to_set_is_finite(all);
            assert forall|name: Seq<char>| #[trigger] fields.dom().contains(name) implies kept.dom().union(
                all.to_set(),
            ).contains(name) by {
                if !kept.contains_key(name) {
                    assert(all.contains(name));
                }
            }
            assert(fields.dom().subset_of(kept.dom().union(all.to_set())));
            vstd::set_lib::lemma_len_subset(fields.dom(), kept.dom().union(all.to_set()));
        }
    }
}

/// Takes away the fields that are always bounded, and without an upgrade also
/// `Connection` and `Upgrade`.
fn strip_bounded_headers(headers: &mut HeaderMap, retain_upgrade: bool)
    ensures
        header_fields(*final(headers)) == fields_without(
            header_fields(*old(headers)),
            |name: Seq<char>|
                is_bounded(name) || (!retain_upgrade && (name == "connection"@ || name
                    == "upgrade"@)),
        ),
        header_fields(*old(headers)).dom().finite(),
        header_fields(*final(headers)).dom().finite(),
{
    proof {
        lemma_known_names();
    }
    let ghost fields = header_fields(*headers);
    if !retain_upgrade {
        remove_header(headers, "connection");
        remove_header(headers, "upgrade");
    }
    remove_header(headers, "proxy-connection");
    remove_header(headers, "keep-alive");
    remove_header(headers, "proxy-authenticate");
    remove_header(headers, "te");
    remove_header(headers, "trailer");
    remove_header(headers, "transfer-encoding");
    assert(header_fields(*headers) =~= fields_without(
        fields,
        |name: Seq<char>|
            is_bounded(name) || (!retain_upgrade && (name == "connection"@ || name == "upgrade"@)),
    ));
    proof {
        let all = header_fields(*headers).dom().insert("connection"@).insert("upgrade"@).insert(
            "proxy-connection"@,
        ).insert("keep-alive"@).insert("proxy-authenticate"@).insert("te"@).insert(
            "trailer"@,
        ).insert("transfer-encoding"@);
        assert(fields.dom().subset_of(all));
        vstd::set_lib::lemma_len_subset(fields.dom(), all);
    }
}

/// Writes the fields of an upgrade in their plain form.
fn write_upgrade(headers: &mut HeaderMap) -> (r: Result<(), FieldsFull>)
    ensures
        r is Ok ==> header_fields(*final(headers)) == header_fields(*old(headers)).insert(
            "connection"@,
            seq![ascii_bytes("Upgrade"@)],
        ).insert("upgrade"@, seq![ascii_bytes("websocket"@)]),
        header_fields(*old(headers)).dom().finite() && header_fields(*old(headers)).dom().len()
            < FIELD_ROOM ==> r is Ok,
{
    proof {
        lemma_known_names();
    }
    if !insert_header(headers, "connection", "Upgrade") {
        return Err(FieldsFull);
    }
    if !insert_header(headers, "upgrade", "websocket") {
        return Err(FieldsFull);
    }
    Ok(())
}

/// Takes away the fields of a request that concern one connection only, and the
/// credentials for a proxy.
pub fn strip_request_hop_headers(request: &mut RequestHead, retain_upgrade: bool) -> (r: Result<
    (),
    FieldsFull,
>)
    ensures
        final(request).method == old(request).method,
        final(request).http_11 == old(request).http_11,
        r is Ok ==> header_fields(final(request).headers) == forwarded_request_fields(
            header_fields(old(request).headers),
            retain_upgrade,
        ),
        !retain_upgrade ==> r is Ok,
        header_fields(old(request).headers).dom().finite(),
        header_fields(old(request).headers).dom().len() < FIELD_ROOM ==> r is Ok,
{
    proof {
        lemma_known_names();
    }
    let ghost fields = header_fields(request.headers);
    strip_named_headers(&mut request.headers, retain_upgrade);
    let ghost named = header_fields(request.headers);
    remove_header(&mut request.headers, "proxy-authorization");
    proof {
        let all = header_fields(request.headers).dom().insert("proxy-authorization"@);
        assert(named.dom().subset_of(all));
        vstd::set_lib::lemma_len_subset(named.dom(), all);
    }
    strip_bounded_headers(&mut request.headers, retain_upgrade);
    let ghost kept = header_fields(request.headers);
    assert(kept =~= Map::new(
        |name: Seq<char>|
            fields.contains_key(name) && !is_hop_field(fields, retain_upgrade, name) && !(name
                == "proxy-authorization"@),
        |name: Seq<char>| fields[name],
    ));
    if retain_upgrade {
        proof {
            lemma_fewer_fields(fields, kept);
        }
        return write_upgrade(&mut request.headers);
    }
    Ok(())
}

/// Takes away the fields of a response that concern one connection only.
pub fn strip_response_hop_headers(response: &mut ResponseHead, retain_upgrade: bool) -> (r: Result<
    (),
    FieldsFull,
>)
    ensures
        final(response).status == old(response).status,
        r is Ok ==> header_fields(final(response).headers) == forwarded_response_fields(
            header_fields(old(response).headers),
            retain_upgrade,
        ),
        !retain_upgrade ==> r is Ok,
        header_fields(old(response).headers).dom().finite(),
        header_fields(old(response).headers).dom().len() < FIELD_ROOM ==> r is Ok,
{
    let ghost fields = header_fields(response.headers);
    strip_named_headers(&mut response.headers, retain_upgrade);
    strip_bounded_headers(&mut response.headers, retain_upgrade);
    let ghost kept = header_fields(response.headers);
    assert(kept =~= Map::new(
        |name: Seq<char>|
            fields.contains_key(name) && !is_hop_field(fields, retain_upgrade, name) && !false,
        |name: Seq<char>| fields[name],
    ));
    if retain_upgrade {
        proof {
            lemma_fewer_fields(fields, kept);
        }
        return write_upgrade(&mut response.headers);
    }
    Ok(())
}

proof fn lemma_fewer_fields(
    fields: Map<Seq<char>, Seq<Seq<u8>>>,
    kept: Map<Seq<char>, Seq<Seq<u8>>>,
)
    requires
        forall|name: Seq<char>| #[trigger] kept.contains_key(name) ==> fields.contains_key(name),
    ensures
        fields.dom().finite() ==> kept.dom().finite() && kept.dom().len() <= fields.dom().len(),
{
    if fields.dom().finite() {
        assert(kept.dom().subset_of(fields.dom()));
        vstd::set_lib::lemma_len_subset(kept.dom(), fields.dom());
    }
}

/// No more than the two fields of an upgrade come to those that were there.
pub proof fn lemma_forwarded_fields_fit(
    fields: Map<Seq<char>, Seq<Seq<u8>>>,
    retain_upgrade: bool,
)
    ensures
        fields.dom().finite() ==> forwarded_request_fields(fields, retain_upgrade).dom().finite()
            && forwarded_request_fields(fields, retain_upgrade).dom().len() <= fields.dom().len()
            + 2,
{
    if fields.dom().finite() {
        let all = fields.dom().insert("connection"@).insert("upgrade"@);
        let forwarded = forwarded_request_fields(fields, retain_upgrade).dom();
        assert(forwarded.subset_of(all));
        vstd::set_lib::lemma_len_subset(forwarded, all);
    }
}

/// Whether the fields ask for a WebSocket.
pub open spec fn asks_for_websocket(fields: Map<Seq<char>, Seq<Seq<u8>>>) -> bool {
    has_value(values_of(fields, "upgrade"@), ascii_bytes("websocket"@)) && lists_token(
        values_of(fields, "connection"@),
        ascii_bytes("upgrade"@),
    )
}

fn fields_ask_for_websocket(headers: &HeaderMap) -> (r: bool)
    ensures
        r == asks_for_websocket(header_fields(*headers)),
{
    proof {
        lemma_known_names();
        reveal_strlit("websocket");
        reveal_strlit("upgrade");
        vstd::utf8::is_ascii_chars_encode_utf8("websocket"@);
        vstd::utf8::is_ascii_chars_encode_utf8("upgrade"@);
    }
    let websocket = "websocket".as_bytes();
    let upgrade = "upgrade".as_bytes();
    assert(websocket@ =~= ascii_bytes("websocket"@));
    assert(upgrade@ =~= ascii_bytes("upgrade"@));
    header_has_value(headers, "upgrade", websocket) && header_contains_token(
        headers,
        "connection",
        upgrade,
    )
}

/// Whether a request asks for a WebSocket: in HTTP/1.1, with the fields for it.
pub fn is_valid_websocket_request(request: &RequestHead) -> (r: bool)
    ensures
        r == (request.http_11 && asks_for_websocket(header_fields(request.headers))),
{
    request.http_11 && fields_ask_for_websocket(&request.headers)
}

/// Whether a response switches to a WebSocket: with status 101 and the fields for
/// it.
pub fn is_valid_websocket_response(response: &ResponseHead) -> (r: bool)
    ensures
        r == (response.status == 101 && asks_for_websocket(header_fields(response.headers))),
{
    response.status == 101 && fields_ask_for_websocket(&response.headers)
}

/// Whether a header holds a field of that name.
pub fn has_field(headers: &HeaderMap, name: &str) -> (r: bool)
    requires
        is_field_name(name@),
    ensures
        r == (values_of(header_fields(*headers), name@).len() > 0),
{
    let values = header_values(headers, name);
    assert(text::views(values@).len() == values@.len());
    values.len() > 0
}

/// No field of one connection is forwarded, in either direction, but for the two
/// that an upgrade is made with, and no credentials for a proxy are forwarded with
/// a request.
pub proof fn law_hop_fields_are_not_forwarded(
    fields: Map<Seq<char>, Seq<Seq<u8>>>,
    name: Seq<char>,
)
    ensures
        is_hop_field(fields, false, name) ==> !forwarded_request_fields(
            fields,
            false,
        ).contains_key(name) && !forwarded_response_fields(fields, false).contains_key(name),
        is_hop_field(fields, true, name) && name != "connection"@ && name != "upgrade"@
            ==> !forwarded_request_fields(fields, true).contains_key(name)
            && !forwarded_response_fields(fields, true).contains_key(name),
        !forwarded_request_fields(fields, false).contains_key("proxy-authorization"@),
        !forwarded_request_fields(fields, true).contains_key("proxy-authorization"@),
{
    reveal_strlit("proxy-authorization");
    reveal_strlit("connection");
    reveal_strlit("upgrade");
    assert("proxy-authorization"@.len() != "connection"@.len());
    assert("proxy-authorization"@.len() != "upgrade"@.len());
}

/// Every other field is forwarded with all its values in their order, in either
/// direction.
pub proof fn law_end_to_end_fields_are_forwarded(
    fields: Map<Seq<char>, Seq<Seq<u8>>>,
    retain_upgrade: bool,
    name: Seq<char>,
)
    requires
        fields.contains_key(name),
        !is_hop_field(fields, retain_upgrade, name),
        name != "connection"@,
        name != "upgrade"@,
    ensures
        name != "proxy-authorization"@ ==> forwarded_request_fields(
            fields,
            retain_upgrade,
        ).contains_key(name) && forwarded_request_fields(fields, retain_upgrade)[name]
            == fields[name],
        forwarded_response_fields(fields, retain_upgrade).contains_key(name)
            && forwarded_response_fields(fields, retain_upgrade)[name] == fields[name],
{
}

/// Nothing is added to what is forwarded but the two fields of an upgrade, which
/// have their plain form.
pub proof fn law_only_the_upgrade_is_added(
    fields: Map<Seq<char>, Seq<Seq<u8>>>,
    retain_upgrade: bool,
    name: Seq<char>,
)
    ensures
        forwarded_request_fields(fields, retain_upgrade).contains_key(name)
            && !fields.contains_key(name) ==> retain_upgrade && (name == "connection"@ || name
            == "upgrade"@),
        forwarded_response_fields(fields, retain_upgrade).contains_key(name)
            && !fields.contains_key(name) ==> retain_upgrade && (name == "connection"@ || name
            == "upgrade"@),
        retain_upgrade ==> forwarded_request_fields(fields, true)["connection"@]
            == seq![ascii_bytes("Upgrade"@)] && forwarded_request_fields(fields, true)["upgrade"@]
            == seq![ascii_bytes("websocket"@)],
        retain_upgrade ==> forwarded_response_fields(fields, true)["connection"@]
            == seq![ascii_bytes("Upgrade"@)] && forwarded_response_fields(fields, true)["upgrade"@]
            == seq![ascii_bytes("websocket"@)],
{
    reveal_strlit("connection");
    reveal_strlit("upgrade");
    assert("connection"@.len() != "upgrade"@.len());
}

/// Forwarding what was forwarded changes nothing more.
pub proof fn law_forwarding_twice_is_forwarding_once(fields: Map<Seq<char>, Seq<Seq<u8>>>)
    ensures
        forwarded_request_fields(forwarded_request_fields(fields, false), false)
            == forwarded_request_fields(fields, false),
        forwarded_response_fields(forwarded_response_fields(fields, false), false)
            == forwarded_response_fields(fields, false),
{
    let request = forwarded_request_fields(fields, false);
    let response = forwarded_response_fields(fields, false);
    assert(!request.contains_key("connection"@));
    assert(!response.contains_key("connection"@));
    assert(forwarded_request_fields(request, false) =~= request);
    assert(forwarded_response_fields(response, false) =~= response);
}

/// Whether a byte is a character of a word in lower case, written in either case.
pub open spec fn spells(b: u8, c: char) -> bool {
    b == c as u32 || (0x61 <= c as u32 <= 0x7a && b + 0x20 == c as u32)
}

/// White space between the members of a list.
pub open spec fn is_blank(b: u8) -> bool {
    b == 0x9 || b == 0xa || b == 0xc || b == 0xd || b == 0x20
}

/// Whether a word stands at `at`, in either case, with nothing but white space around it
/// between `from` and `to`, where a comma or an end of the value is on either side.
pub open spec fn lists_word_at(
    value: Seq<u8>,
    word: Seq<char>,
    from: int,
    at: int,
    to: int,
) -> bool {
    &&& 0 <= from <= at
    &&& at + word.len() <= to <= value.len()
    &&& from == 0 || value[from - 1] == 0x2c
    &&& to == value.len() || value[to] == 0x2c
    &&& forall|k: int| from <= k < at ==> is_blank(#[trigger] value[k])
    &&& forall|k: int| at + word.len() <= k < to ==> is_blank(#[trigger] value[k])
    &&& forall|k: int| 0 <= k < word.len() ==> spells(value[at + k], #[trigger] word[k])
}

/// Whether a value lists a word between its commas, in either case and with white space
/// around it.
pub open spec fn lists_word(value: Seq<u8>, word: Seq<char>) -> bool {
    exists|from: int, at: int, to: int| #[trigger] lists_word_at(value, word, from, at, to)
}

/// Whether one of the values of a field lists a word.
pub open spec fn field_lists_word(
    fields: Map<Seq<char>, Seq<Seq<u8>>>,
    field: Seq<char>,
    word: Seq<char>,
) -> bool {
    fields.contains_key(field) && exists|i: int|
        0 <= i < fields[field].len() && lists_word(#[trigger] fields[field][i], word)
}

/// Whether one of the values of a field is a word, in either case, and nothing more.
pub open spec fn field_is_word(
    fields: Map<Seq<char>, Seq<Seq<u8>>>,
    field: Seq<char>,
    word: Seq<char>,
) -> bool {
    fields.contains_key(field) && exists|i: int|
        0 <= i < fields[field].len() && (#[trigger] fields[field][i]).len() == word.len() && forall|
            k: int,
        |
            0 <= k < word.len() ==> spells(fields[field][i][k], #[trigger] word[k])
}

/// A character of a field name: a small letter, a digit or one of fifteen marks.
pub open spec fn is_name_char(c: char) -> bool {
    ('a' <= c && c <= 'z') || ('0' <= c && c <= '9') || c == '!' || c == '#' || c == '$' || c == '%'
        || c == '&' || c == '\'' || c == '*' || c == '+' || c == '-' || c == '.' || c == '^' || c
        == '_' || c == '`' || c == '|' || c == '~'
}

/// A field name as headers hold it.
pub open spec fn is_name(name: Seq<char>) -> bool {
    0 < name.len() <= 0xffff && forall|i: int| 0 <= i < name.len() ==> is_name_char(
        #[trigger] name[i],
    )
}

/// What is left when the white space at either end is taken away.
#[verifier::spinoff_prover]
proof fn lemma_trimmed(s: Seq<u8>) -> (r: (int, int))
    ensures
        0 <= r.0 <= r.1 <= s.len(),
        trimmed(s) == s.subrange(r.0, r.1),
        forall|k: int| 0 <= k < r.0 ==> is_blank(#[trigger] s[k]),
        forall|k: int| r.1 <= k < s.len() ==> is_blank(#[trigger] s[k]),
        r.0 < r.1 ==> !is_blank(s[r.0]) && !is_blank(s[r.1 - 1]),
    decreases s.len(),
{
    if s.len() == 0 {
        assert(s =~= s.subrange(0, 0));
        (0, 0)
    } else if is_ascii_space(s[0]) {
        let rest = s.skip(1);
        let (l, r) = lemma_trimmed(rest);
        assert(rest.subrange(l, r) =~= s.subrange(l + 1, r + 1));
        assert forall|k: int| 0 <= k < l + 1 implies is_blank(#[trigger] s[k]) by {
            if k > 0 {
                assert(rest[k - 1] == s[k]);
            }
        }
        assert forall|k: int| r + 1 <= k < s.len() implies is_blank(#[trigger] s[k]) by {
            assert(rest[k - 1] == s[k]);
        }
        (l + 1, r + 1)
    } else if is_ascii_space(s.last()) {
        let rest = s.drop_last();
        let (l, r) = lemma_trimmed(rest);
        assert(rest.subrange(l, r) =~= s.subrange(l, r));
        assert forall|k: int| 0 <= k < l implies is_blank(#[trigger] s[k]) by {
            assert(rest[k] == s[k]);
        }
        assert forall|k: int| r <= k < s.len() implies is_blank(#[trigger] s[k]) by {
            if k < rest.len() {
                assert(rest[k] == s[k]);
            }
        }
        (l, r)
    } else {
        assert(s =~= s.subrange(0, s.len() as int));
        (0, s.len() as int)
    }
}

/// White space around a word is what is taken away.
proof fn lemma_trimmed_word(s: Seq<u8>, l: int, r: int)
    requires
        0 <= l < r <= s.len(),
        forall|k: int| 0 <= k < l ==> is_blank(#[trigger] s[k]),
        forall|k: int| r <= k < s.len() ==> is_blank(#[trigger] s[k]),
        !is_blank(s[l]),
        !is_blank(s[r - 1]),
    ensures
        trimmed(s) == s.subrange(l, r),
{
    let (a, b) = lemma_trimmed(s);
    if a < b {
        assert(a <= l && l < b);
        assert(l <= a);
        assert(r - 1 < b && b - 1 < r);
    } else {
        assert(is_blank(s[l]));
    }
}

proof fn lemma_name_chars(name: Seq<char>, k: int, b: u8)
    requires
        is_name(name),
        0 <= k < name.len(),
    ensures
        spells(b, name[k]) <==> is_name_byte(b) && lower_byte(b) as char == name[k],
        spells(b, name[k]) ==> !is_blank(b) && b != 0x2c,
{
    assert(is_name_char(name[k]));
}

/// A value names a field exactly when it lists the name.
#[verifier::spinoff_prover]
proof fn lemma_value_names_field(value: Seq<u8>, name: Seq<char>)
    requires
        is_name(name),
    ensures
        lists_word(value, name) <==> exists|j: int|
            0 <= j < members(value).len() && field_name(#[trigger] members(value)[j]) == Some(
                name,
            ),
{
    let pieces = text::split(value, 0x2cu8);
    let all = members(value);
    if lists_word(value, name) {
        let (from, at, to) = choose|from: int, at: int, to: int| #[trigger]
            lists_word_at(value, name, from, at, to);
        let n = name.len() as int;
        assert forall|k: int| from <= k < to implies #[trigger] value[k] != 0x2c by {
            if at <= k < at + n {
                assert(spells(value[at + (k - at)], name[k - at]));
                lemma_name_chars(name, k - at, value[k]);
            }
        }
        text::lemma_split_has_piece(value, 0x2cu8, from, to);
        let j = choose|j: int|
            0 <= j < pieces.len() && #[trigger] pieces[j] == value.subrange(from, to);
        let piece = pieces[j];
        assert(spells(value[at + 0], name[0]));
        assert(spells(value[at + (n - 1)], name[n - 1]));
        lemma_name_chars(name, 0, value[at]);
        lemma_name_chars(name, n - 1, value[at + n - 1]);
        assert forall|k: int| 0 <= k < at - from implies is_blank(#[trigger] piece[k]) by {
            assert(piece[k] == value[from + k]);
        }
        assert forall|k: int| at - from + n <= k < piece.len() implies is_blank(
            #[trigger] piece[k],
        ) by {
            assert(piece[k] == value[from + k]);
        }
        lemma_trimmed_word(piece, at - from, at - from + n);
        let word = piece.subrange(at - from, at - from + n);
        assert(all[j] == word);
        assert forall|k: int| 0 <= k < n implies is_name_byte(#[trigger] word[k]) && lower_byte(
            word[k],
        ) as char == name[k] by {
            assert(word[k] == value[at + k]);
            assert(spells(value[at + k], name[k]));
            lemma_name_chars(name, k, word[k]);
        }
        assert(ascii_text(lower_bytes(word)) =~= name);
        assert(field_name(all[j]) == Some(name));
    }
    if exists|j: int| 0 <= j < all.len() && field_name(#[trigger] all[j]) == Some(name) {
        let j = choose|j: int| 0 <= j < all.len() && field_name(#[trigger] all[j]) == Some(name);
        let piece = pieces[j];
        text::lemma_piece_stands_between(value, 0x2cu8, j);
        let from = choose|from: int| #[trigger] text::stands_between(value, 0x2cu8, piece, from);
        let (l, r) = lemma_trimmed(piece);
        let word = piece.subrange(l, r);
        assert(all[j] == word);
        assert(ascii_text(lower_bytes(word)) == name);
        let to = from + piece.len();
        let at = from + l;
        assert(name.len() == r - l);
        assert forall|k: int| 0 <= k < name.len() implies spells(
            value[at + k],
            #[trigger] name[k],
        ) by {
            assert(word[k] == value[at + k]);
            assert(name[k] == lower_byte(word[k]) as char);
            assert(is_name_byte(word[k]));
            lemma_name_chars(name, k, word[k]);
        }
        assert forall|k: int| from <= k < at implies is_blank(#[trigger] value[k]) by {
            assert(piece[k - from] == value[k]);
        }
        assert forall|k: int| at + name.len() <= k < to implies is_blank(#[trigger] value[k]) by {
            assert(piece[k - from] == value[k]);
        }
        assert(lists_word_at(value, name, from, at, to));
    }
}

/// The `Connection` fields name a field exactly when one of them lists the name.
proof fn lemma_fields_name_field(fields: Map<Seq<char>, Seq<Seq<u8>>>, name: Seq<char>)
    requires
        is_name(name),
    ensures
        names_field(values_of(fields, "connection"@), name) <==> field_lists_word(
            fields,
            "connection"@,
            name,
        ),
{
    let values = values_of(fields, "connection"@);
    assert forall|i: int| 0 <= i < values.len() implies (lists_word(#[trigger] values[i], name)
        <==> exists|j: int|
        0 <= j < members(values[i]).len() && field_name(#[trigger] members(values[i])[j]) == Some(
            name,
        )) by {
        lemma_value_names_field(values[i], name);
    }
    if names_field(values, name) {
        let (i, j) = choose|i: int, j: int|
            0 <= i < values.len() && 0 <= j < members(values[i]).len() && field_name(
                #[trigger] members(values[i])[j],
            ) == Some(name);
        assert(lists_word(values[i], name));
        assert(lists_word(fields["connection"@][i], name));
    }
    if field_lists_word(fields, "connection"@, name) {
        let i = choose|i: int|
            0 <= i < fields["connection"@].len() && lists_word(
                #[trigger] fields["connection"@][i],
                name,
            );
        assert(lists_word(values[i], name));
        let j = choose|j: int|
            0 <= j < members(values[i]).len() && field_name(#[trigger] members(values[i])[j])
                == Some(name);
        assert(field_name(members(values[i])[j]) == Some(name));
    }
}

/// Without an upgrade a field of a request is forwarded, with all its values in their
/// order, exactly when no `Connection` field names it and it is none of `Connection`,
/// `Upgrade`, `Proxy-Connection`, `Keep-Alive`, `Proxy-Authenticate`,
/// `Proxy-Authorization`, `TE`, `Trailer` and `Transfer-Encoding`. The request is else
/// left as it is.
pub proof fn law_request_keeps_end_to_end_fields(
    request: &mut RequestHead,
    r: Result<(), FieldsFull>,
    name: Seq<char>,
)
    requires
        call_ensures(strip_request_hop_headers, (request, false), r),
        is_name(name),
    ensures
        ({
            let before = header_fields(old(request).headers);
            let after = header_fields(final(request).headers);
            &&& r is Ok
            &&& after.contains_key(name) <==> before.contains_key(name) && !field_lists_word(
                before,
                "connection"@,
                name,
            ) && name != "connection"@ && name != "upgrade"@ && name != "proxy-connection"@ && name
                != "keep-alive"@ && name != "proxy-authenticate"@ && name
                != "proxy-authorization"@ && name != "te"@ && name != "trailer"@ && name
                != "transfer-encoding"@
            &&& after.contains_key(name) ==> after[name] == before[name]
            &&& final(request).method@ == old(request).method@
            &&& final(request).http_11 == old(request).http_11
        }),
{
    lemma_fields_name_field(header_fields(old(request).headers), name);
}

/// With an upgrade the same holds of every field but `Connection` and `Upgrade`, which
/// are forwarded as `Upgrade` and `websocket` whatever they were.
pub proof fn law_upgrade_request_keeps_end_to_end_fields(
    request: &mut RequestHead,
    r: Result<(), FieldsFull>,
    name: Seq<char>,
)
    requires
        call_ensures(strip_request_hop_headers, (request, true), r),
        is_name(name),
    ensures
        ({
            let before = header_fields(old(request).headers);
            let after = header_fields(final(request).headers);
            &&& before.dom().len() < 4_096 ==> r is Ok
            &&& r is Ok && name != "connection"@ && name != "upgrade"@ ==> {
                &&& after.contains_key(name) <==> before.contains_key(name) && !field_lists_word(
                    before,
                    "connection"@,
                    name,
                ) && name != "proxy-connection"@ && name != "keep-alive"@ && name
                    != "proxy-authenticate"@ && name != "proxy-authorization"@ && name != "te"@
                    && name != "trailer"@ && name != "transfer-encoding"@
                &&& after.contains_key(name) ==> after[name] == before[name]
            }
            &&& r is Ok ==> {
                &&& after.contains_key("connection"@)
                &&& after["connection"@] == seq![seq![0x55u8, 0x70, 0x67, 0x72, 0x61, 0x64, 0x65]]
                &&& after.contains_key("upgrade"@)
                &&& after["upgrade"@] == seq![
                    seq![0x77u8, 0x65, 0x62, 0x73, 0x6f, 0x63, 0x6b, 0x65, 0x74],
                ]
            }
            &&& final(request).method@ == old(request).method@
            &&& final(request).http_11 == old(request).http_11
        }),
{
    lemma_fields_name_field(header_fields(old(request).headers), name);
    lemma_upgrade_bytes();
}

pub proof fn lemma_upgrade_bytes()
    ensures
        "connection"@ != "upgrade"@,
        ascii_bytes("Upgrade"@) == seq![0x55u8, 0x70, 0x67, 0x72, 0x61, 0x64, 0x65],
        ascii_bytes("websocket"@) == seq![
            0x77u8,
            0x65,
            0x62,
            0x73,
            0x6f,
            0x63,
            0x6b,
            0x65,
            0x74,
        ],
{
    reveal_strlit("connection");
    reveal_strlit("upgrade");
    reveal_strlit("Upgrade");
    reveal_strlit("websocket");
    assert("connection"@.len() != "upgrade"@.len());
    assert(ascii_bytes("Upgrade"@) =~= seq![0x55u8, 0x70, 0x67, 0x72, 0x61, 0x64, 0x65]);
    assert(ascii_bytes("websocket"@) =~= seq![
        0x77u8,
        0x65,
        0x62,
        0x73,
        0x6f,
        0x63,
        0x6b,
        0x65,
        0x74,
    ]);
}

/// The `Connection` fields name a field exactly when one of them lists the name.
pub proof fn lemma_connection_names(fields: Map<Seq<char>, Seq<Seq<u8>>>, name: Seq<char>)
    requires
        is_name(name),
    ensures
        names_field(values_of(fields, "connection"@), name) <==> field_lists_word(
            fields,
            "connection"@,
            name,
        ),
{
    lemma_fields_name_field(fields, name);
}

/// `Content-Length` is a name, and none of the fields that are kept back.
pub proof fn lemma_content_length()
    ensures
        is_name("content-length"@),
        "content-length"@ != "connection"@,
        "content-length"@ != "upgrade"@,
        "content-length"@ != "proxy-connection"@,
        "content-length"@ != "keep-alive"@,
        "content-length"@ != "proxy-authenticate"@,
        "content-length"@ != "proxy-authorization"@,
        "content-length"@ != "te"@,
        "content-length"@ != "trailer"@,
        "content-length"@ != "transfer-encoding"@,
        "transfer-encoding"@ != "connection"@,
        "transfer-encoding"@ != "upgrade"@,
{
    reveal_strlit("content-length");
    reveal_strlit("connection");
    reveal_strlit("upgrade");
    reveal_strlit("proxy-connection");
    reveal_strlit("keep-alive");
    reveal_strlit("proxy-authenticate");
    reveal_strlit("proxy-authorization");
    reveal_strlit("te");
    reveal_strlit("trailer");
    reveal_strlit("transfer-encoding");
    assert("content-length"@.len() == 14);
    assert("transfer-encoding"@.len() == 17);
}

/// Without an upgrade a field of a response is forwarded, with all its values in their
/// order, exactly when no `Connection` field names it and it is none of `Connection`,
/// `Upgrade`, `Proxy-Connection`, `Keep-Alive`, `Proxy-Authenticate`, `TE`, `Trailer` and
/// `Transfer-Encoding`.
pub proof fn law_response_keeps_end_to_end_fields(
    response: &mut ResponseHead,
    r: Result<(), FieldsFull>,
    name: Seq<char>,
)
    requires
        call_ensures(strip_response_hop_headers, (response, false), r),
        is_name(name),
    ensures
        ({
            let before = header_fields(old(response).headers);
            let after = header_fields(final(response).headers);
            &&& r is Ok
            &&& after.contains_key(name) <==> before.contains_key(name) && !field_lists_word(
                before,
                "connection"@,
                name,
            ) && name != "connection"@ && name != "upgrade"@ && name != "proxy-connection"@ && name
                != "keep-alive"@ && name != "proxy-authenticate"@ && name != "te"@ && name
                != "trailer"@ && name != "transfer-encoding"@
            &&& after.contains_key(name) ==> after[name] == before[name]
            &&& final(response).status == old(response).status
        }),
{
    lemma_fields_name_field(header_fields(old(response).headers), name);
}

/// With an upgrade the same holds of every field but `Connection` and `Upgrade`, which
/// are forwarded as `Upgrade` and `websocket` whatever they were.
pub proof fn law_upgrade_response_keeps_end_to_end_fields(
    response: &mut ResponseHead,
    r: Result<(), FieldsFull>,
    name: Seq<char>,
)
    requires
        call_ensures(strip_response_hop_headers, (response, true), r),
        is_name(name),
    ensures
        ({
            let before = header_fields(old(response).headers);
            let after = header_fields(final(response).headers);
            &&& before.dom().len() < 4_096 ==> r is Ok
            &&& r is Ok && name != "connection"@ && name != "upgrade"@ ==> {
                &&& after.contains_key(name) <==> before.contains_key(name) && !field_lists_word(
                    before,
                    "connection"@,
                    name,
                ) && name != "proxy-connection"@ && name != "keep-alive"@ && name
                    != "proxy-authenticate"@ && name != "te"@ && name != "trailer"@ && name
                    != "transfer-encoding"@
                &&& after.contains_key(name) ==> after[name] == before[name]
            }
            &&& r is Ok ==> {
                &&& after.contains_key("connection"@)
                &&& after["connection"@] == seq![seq![0x55u8, 0x70, 0x67, 0x72, 0x61, 0x64, 0x65]]
                &&& after.contains_key("upgrade"@)
                &&& after["upgrade"@] == seq![
                    seq![0x77u8, 0x65, 0x62, 0x73, 0x6f, 0x63, 0x6b, 0x65, 0x74],
                ]
            }
            &&& final(response).status == old(response).status
        }),
{
    lemma_fields_name_field(header_fields(old(response).headers), name);
    lemma_upgrade_bytes();
}

/// The names that `Connection` names are those that one of its values lists.
pub proof fn law_connection_names_are_those_listed(
    headers: HeaderMap,
    names: Vec<String>,
    name: Seq<char>,
)
    requires
        call_ensures(connection_header_names, (&headers,), names),
        is_name(name),
    ensures
        (exists|k: int| 0 <= k < names@.len() && (#[trigger] names@[k])@ == name)
            <==> field_lists_word(header_fields(headers), "connection"@, name),
{
    let fields = header_fields(headers);
    let all = text::texts(names@);
    lemma_fields_name_field(fields, name);
    lemma_listed_names(values_of(fields, "connection"@), name);
    assert(forall|k: int| 0 <= k < names@.len() ==> all[k] == (#[trigger] names@[k])@);
    if all.contains(name) {
        let k = choose|k: int| 0 <= k < all.len() && all[k] == name;
        assert(names@[k]@ == name);
    }
    if exists|k: int| 0 <= k < names@.len() && (#[trigger] names@[k])@ == name {
        let k = choose|k: int| 0 <= k < names@.len() && (#[trigger] names@[k])@ == name;
        assert(all[k] == name);
    }
}

/// What is trimmed away at either end is white space, and nothing else is.
pub proof fn law_only_white_space_is_trimmed(value: &[u8], r: &[u8]) -> (place: (int, int))
    requires
        call_ensures(trim_ascii_whitespace, (value,), r),
    ensures
        0 <= place.0 <= place.1 <= value@.len(),
        r@ == value@.subrange(place.0, place.1),
        forall|k: int| 0 <= k < place.0 ==> is_blank(#[trigger] value@[k]),
        forall|k: int| place.1 <= k < value@.len() ==> is_blank(#[trigger] value@[k]),
        place.0 < place.1 ==> !is_blank(value@[place.0]) && !is_blank(value@[place.1 - 1]),
{
    lemma_trimmed(value@)
}

/// Bytes that spell a word of small letters.
proof fn lemma_folded_word(bytes: Seq<u8>, word: Seq<char>)
    requires
        forall|k: int| 0 <= k < word.len() ==> 'a' <= #[trigger] word[k] && word[k] <= 'z',
    ensures
        lower_bytes(bytes) == lower_bytes(ascii_bytes(word)) <==> bytes.len() == word.len()
            && forall|k: int| 0 <= k < word.len() ==> spells(bytes[k], #[trigger] word[k]),
        0 < word.len() <= 0xffff ==> (lower_bytes(bytes) == lower_bytes(ascii_bytes(word))
            <==> field_name(bytes) == Some(word)),
{
    let folded = lower_bytes(bytes);
    let plain = lower_bytes(ascii_bytes(word));
    assert forall|k: int| 0 <= k < word.len() implies (#[trigger] plain[k]) == word[k] as u8 by {
        assert('a' <= word[k]);
    }
    if folded == plain {
        assert(folded.len() == plain.len());
        assert forall|k: int| 0 <= k < word.len() implies spells(bytes[k], #[trigger] word[k]) by {
            assert(folded[k] == plain[k]);
            assert(folded[k] == lower_byte(bytes[k]));
        }
        assert forall|k: int| 0 <= k < bytes.len() implies is_name_byte(#[trigger] bytes[k]) by {
            assert(spells(bytes[k], word[k]));
        }
        assert(ascii_text(folded) =~= word);
    }
    if bytes.len() == word.len() && forall|k: int|
        0 <= k < word.len() ==> spells(bytes[k], #[trigger] word[k]) {
        assert forall|k: int| 0 <= k < word.len() implies folded[k] == plain[k] by {
            assert(spells(bytes[k], word[k]));
        }
        assert(folded =~= plain);
    }
    if field_name(bytes) == Some(word) {
        assert(ascii_text(folded) == word);
        assert forall|k: int| 0 <= k < word.len() implies folded[k] == plain[k] by {
            assert(ascii_text(folded)[k] == word[k]);
            assert(folded[k] == lower_byte(bytes[k]));
            assert(is_name_byte(bytes[k]));
        }
        assert(folded =~= plain);
    }
}

proof fn lemma_asks_for_websocket(fields: Map<Seq<char>, Seq<Seq<u8>>>)
    ensures
        asks_for_websocket(fields) <==> field_is_word(fields, "upgrade"@, "websocket"@)
            && field_lists_word(fields, "connection"@, "upgrade"@),
{
    reveal_strlit("websocket");
    reveal_strlit("upgrade");
    let upgrades = values_of(fields, "upgrade"@);
    let expected = ascii_bytes("websocket"@);
    assert forall|i: int| 0 <= i < upgrades.len() implies (lower_bytes(#[trigger] upgrades[i])
        == lower_bytes(expected) <==> upgrades[i].len() == "websocket"@.len() && forall|k: int|
        0 <= k < "websocket"@.len() ==> spells(upgrades[i][k], #[trigger] "websocket"@[k])) by {
        lemma_folded_word(upgrades[i], "websocket"@);
    }
    if has_value(upgrades, expected) {
        let i = choose|i: int|
            0 <= i < upgrades.len() && lower_bytes(#[trigger] upgrades[i]) == lower_bytes(
                expected,
            );
        assert(fields["upgrade"@][i] == upgrades[i]);
        assert(field_is_word(fields, "upgrade"@, "websocket"@));
    }
    if field_is_word(fields, "upgrade"@, "websocket"@) {
        let i = choose|i: int|
            0 <= i < fields["upgrade"@].len() && (#[trigger] fields["upgrade"@][i]).len()
                == "websocket"@.len() && forall|k: int|
                0 <= k < "websocket"@.len() ==> spells(
                    fields["upgrade"@][i][k],
                    #[trigger] "websocket"@[k],
                );
        assert(upgrades[i] == fields["upgrade"@][i]);
        assert(lower_bytes(upgrades[i]) == lower_bytes(expected));
    }
    let values = values_of(fields, "connection"@);
    let token = ascii_bytes("upgrade"@);
    assert(is_name("upgrade"@));
    lemma_fields_name_field(fields, "upgrade"@);
    assert forall|i: int, j: int|
        0 <= i < values.len() && 0 <= j < members(values[i]).len() implies (lower_bytes(
        #[trigger] members(values[i])[j],
    ) == lower_bytes(token) <==> field_name(members(values[i])[j]) == Some("upgrade"@)) by {
        lemma_folded_word(members(values[i])[j], "upgrade"@);
    }
    assert(lists_token(values, token) <==> names_field(values, "upgrade"@));
}

/// A request asks for a WebSocket exactly when it is made in HTTP/1.1, one of its
/// `Upgrade` fields is `websocket`, and one of its `Connection` fields lists `upgrade`,
/// each in any case.
pub proof fn law_websocket_request_is_recognised(request: RequestHead, r: bool)
    requires
        call_ensures(is_valid_websocket_request, (&request,), r),
    ensures
        r <==> request.http_11 && field_is_word(
            header_fields(request.headers),
            "upgrade"@,
            "websocket"@,
        ) && field_lists_word(header_fields(request.headers), "connection"@, "upgrade"@),
{
    lemma_asks_for_websocket(header_fields(request.headers));
}

/// A response switches to a WebSocket exactly when its status is 101 and its fields are
/// those of an upgrade.
pub proof fn law_websocket_response_is_recognised(response: ResponseHead, r: bool)
    requires
        call_ensures(is_valid_websocket_response, (&response,), r),
    ensures
        r <==> response.status == 101 && field_is_word(
            header_fields(response.headers),
            "upgrade"@,
            "websocket"@,
        ) && field_lists_word(header_fields(response.headers), "connection"@, "upgrade"@),
{
    lemma_asks_for_websocket(header_fields(response.headers));
}

/// The fields of a header ask for a WebSocket exactly when one `Upgrade` field is
/// `websocket` and one `Connection` field lists `upgrade`.
pub proof fn law_fields_of_an_upgrade(fields: Map<Seq<char>, Seq<Seq<u8>>>)
    ensures
        asks_for_websocket(fields) <==> field_is_word(fields, "upgrade"@, "websocket"@)
            && field_lists_word(fields, "connection"@, "upgrade"@),
{
    lemma_asks_for_websocket(fields);
}

/// A field lists a token of small letters, in any case, exactly when one of its values
/// does.
pub proof fn law_listed_token_is_found(
    headers: HeaderMap,
    name: &str,
    expected: &[u8],
    word: Seq<char>,
    r: bool,
)
    requires
        call_ensures(header_contains_token, (&headers, name, expected), r),
        0 < word.len() <= 0xffff,
        forall|k: int| 0 <= k < word.len() ==> 'a' <= #[trigger] word[k] && word[k] <= 'z',
        expected@.len() == word.len(),
        forall|k: int| 0 <= k < word.len() ==> expected@[k] as char == #[trigger] word[k],
    ensures
        r <==> field_lists_word(header_fields(headers), name@, word),
{
    let fields = header_fields(headers);
    let values = values_of(fields, name@);
    assert(expected@ =~= ascii_bytes(word)) by {
        assert forall|k: int| 0 <= k < word.len() implies expected@[k] == ascii_bytes(word)[k] by {
            assert(expected@[k] as char == word[k]);
        }
    }
    assert(is_name(word)) by {
        assert forall|k: int| 0 <= k < word.len() implies is_name_char(#[trigger] word[k]) by {
            assert('a' <= word[k]);
        }
    }
    assert forall|i: int, j: int|
        0 <= i < values.len() && 0 <= j < members(values[i]).len() implies (lower_bytes(
        #[trigger] members(values[i])[j],
    ) == lower_bytes(expected@) <==> field_name(members(values[i])[j]) == Some(word)) by {
        lemma_folded_word(members(values[i])[j], word);
    }
    assert forall|i: int| 0 <= i < values.len() implies (lists_word(#[trigger] values[i], word)
        <==> exists|j: int|
        0 <= j < members(values[i]).len() && field_name(#[trigger] members(values[i])[j]) == Some(
            word,
        )) by {
        lemma_value_names_field(values[i], word);
    }
    if lists_token(values, expected@) {
        let (i, j) = choose|i: int, j: int|
            0 <= i < values.len() && 0 <= j < members(values[i]).len() && lower_bytes(
                #[trigger] members(values[i])[j],
            ) == lower_bytes(expected@);
        assert(field_name(members(values[i])[j]) == Some(word));
        assert(lists_word(values[i], word));
        assert(lists_word(fields[name@][i], word));
    }
    if field_lists_word(fields, name@, word) {
        let i = choose|i: int|
            0 <= i < fields[name@].len() && lists_word(#[trigger] fields[name@][i], word);
        assert(lists_word(values[i], word));
        let j = choose|j: int|
            0 <= j < members(values[i]).len() && field_name(#[trigger] members(values[i])[j])
                == Some(word);
        assert(lower_bytes(members(values[i])[j]) == lower_bytes(expected@));
    }
}

/// A header has a field exactly when it holds a value of that name.
pub proof fn law_field_is_found(headers: HeaderMap, name: &str, r: bool)
    requires
        call_ensures(has_field, (&headers, name), r),
    ensures
        r <==> header_fields(headers).contains_key(name@) && header_fields(headers)[name@].len()
            > 0,
{
}

} // verus!
