//! The responses that the gateway gives itself, and the choice between them.
use vstd::prelude::*;
use vstd::slice::slice_subrange;

use crate::config;
use crate::headers::{self, header_values, RequestHead};
use crate::quality;
use crate::text::{self, chars_of, find_char, push_decimal, split_chars, to_lower_char};

verus! {

pub const UNKNOWN_HOST_BODY: &'static str = "unknown host\n";

pub const SHUTTING_DOWN_BODY: &'static str = "gateway shutting down\n";

pub const LOADING_HTML_BODY: &'static str = "<!doctype html><html><head><meta charset=\"utf-8\"><meta http-equiv=\"refresh\" content=\"5\"><title>Loading</title></head><body>Service is starting.</body></html>\n";

pub const LOADING_JSON_BODY: &'static str = "{\"status\":\"loading\",\"retry_after\":5}\n";

/// A response of the gateway's own. The connection is closed after it, since the
/// body of the request was not read.
pub struct LocalResponse {
    pub status: u16,
    pub fields: Vec<(&'static str, String)>,
    pub body: &'static str,
    /// Whether the body is left out, as the answer to HEAD.
    pub omit_body: bool,
}

/// The contents of a list of fields.
pub open spec fn field_views(fields: Seq<(&'static str, String)>) -> Seq<(Seq<char>, Seq<char>)> {
    fields.map_values(|field: (&'static str, String)| (field.0@, field.1@))
}

/// The contents of a `LocalResponse`.
#[verifier::ext_equal]
pub struct ResponseView {
    pub status: u16,
    pub fields: Seq<(Seq<char>, Seq<char>)>,
    pub body: Seq<char>,
    pub omit_body: bool,
}

impl View for LocalResponse {
    type V = ResponseView;

    open spec fn view(&self) -> ResponseView {
        ResponseView {
            status: self.status,
            fields: field_views(self.fields@),
            body: self.body@,
            omit_body: self.omit_body,
        }
    }
}

/// The answer while the gateway shuts down.
pub open spec fn shutting_down(method: Seq<char>) -> ResponseView {
    ResponseView {
        status: 503,
        fields: seq![
            ("Content-Type"@, "text/plain; charset=utf-8"@),
            ("Cache-Control"@, "no-store"@),
            ("Content-Length"@, length_text(SHUTTING_DOWN_BODY@)),
        ],
        body: SHUTTING_DOWN_BODY@,
        omit_body: method == "HEAD"@,
    }
}

/// The answer to a request for an unknown host.
pub open spec fn unknown_host() -> ResponseView {
    ResponseView {
        status: 421,
        fields: seq![
            ("Content-Type"@, "text/plain; charset=utf-8"@),
            ("Cache-Control"@, "no-store"@),
            ("Content-Length"@, length_text(UNKNOWN_HOST_BODY@)),
        ],
        body: UNKNOWN_HOST_BODY@,
        omit_body: false,
    }
}

/// The answer while a service is starting, to be tried again in five seconds: a
/// page where one is wanted, else JSON.
pub open spec fn loading(method: Seq<char>, accept: Seq<Seq<u8>>) -> ResponseView {
    let (content_type, body) = if wants_html(method, accept) {
        ("text/html; charset=utf-8"@, LOADING_HTML_BODY@)
    } else {
        ("application/json"@, LOADING_JSON_BODY@)
    };
    ResponseView {
        status: 503,
        fields: seq![
            ("Content-Type"@, content_type),
            ("Retry-After"@, "5"@),
            ("Cache-Control"@, "no-store"@),
            ("Content-Length"@, length_text(body)),
        ],
        body,
        omit_body: method == "HEAD"@,
    }
}

/// The decimal length of a body in bytes.
pub open spec fn length_text(body: Seq<char>) -> Seq<char> {
    text::decimal(vstd::utf8::encode_utf8(body).len())
}

fn length_of(body: &str) -> (text: String)
    ensures
        text@ == length_text(body@),
{
    let mut text = String::new();
    push_decimal(&mut text, body.as_bytes().len() as u64);
    assert(text@ =~= length_text(body@));
    text
}

/// The response to a request that comes while the gateway shuts down.
pub fn shutting_down_response(request: &RequestHead) -> (response: LocalResponse)
    ensures
        response@ == shutting_down(request.method@),
{
    let response = LocalResponse {
        status: 503,
        fields: vec![
            ("Content-Type", "text/plain; charset=utf-8".to_owned()),
            ("Cache-Control", "no-store".to_owned()),
            ("Content-Length", length_of(SHUTTING_DOWN_BODY)),
        ],
        body: SHUTTING_DOWN_BODY,
        omit_body: *request.method.as_str() == *"HEAD",
    };
    assert(response@ =~= shutting_down(request.method@));
    response
}

/// The response to a request for a host that is malformed or not configured.
pub fn unknown_host_response() -> (response: LocalResponse)
    ensures
        response@ == unknown_host(),
{
    let response = LocalResponse {
        status: 421,
        fields: vec![
            ("Content-Type", "text/plain; charset=utf-8".to_owned()),
            ("Cache-Control", "no-store".to_owned()),
            ("Content-Length", length_of(UNKNOWN_HOST_BODY)),
        ],
        body: UNKNOWN_HOST_BODY,
        omit_body: false,
    };
    assert(response@ =~= unknown_host());
    response
}

/// The response while a service is starting.
pub fn loading_response(request: &RequestHead) -> (response: LocalResponse)
    ensures
        response@ == loading(
            request.method@,
            headers::values_of(headers::header_fields(request.headers), "accept"@),
        ),
{
    let (content_type, body) = if prefers_html_loading(request) {
        ("text/html; charset=utf-8", LOADING_HTML_BODY)
    } else {
        ("application/json", LOADING_JSON_BODY)
    };
    let response = LocalResponse {
        status: 503,
        fields: vec![
            ("Content-Type", content_type.to_owned()),
            ("Retry-After", "5".to_owned()),
            ("Cache-Control", "no-store".to_owned()),
            ("Content-Length", length_of(body)),
        ],
        body,
        omit_body: *request.method.as_str() == *"HEAD",
    };
    assert(response@ =~= loading(
        request.method@,
        headers::values_of(headers::header_fields(request.headers), "accept"@),
    ));
    response
}

/// The text of a field value, where it is visible ASCII.
pub open spec fn visible_text(value: Seq<u8>) -> Option<Seq<char>> {
    if forall|i: int|
        0 <= i < value.len() ==> (0x20 <= #[trigger] value[i] && value[i] < 0x7f) || value[i]
            == 0x9 {
        Some(headers::ascii_text(value))
    } else {
        None
    }
}

/// A text without the white space at either end.
pub open spec fn trimmed_text(s: Seq<char>) -> Seq<char>
    decreases s.len(),
{
    if s.len() == 0 {
        s
    } else if config::is_whitespace_char(s[0]) {
        trimmed_text(s.skip(1))
    } else if config::is_whitespace_char(s.last()) {
        trimmed_text(s.drop_last())
    } else {
        s
    }
}

/// The value of the first parameter `q`, in any case, among parameters
/// `name=value`; others are passed over.
pub open spec fn quality_parameter(parameters: Seq<Seq<char>>) -> Option<Seq<char>>
    decreases parameters.len(),
{
    if parameters.len() == 0 {
        None
    } else {
        match quality_parameter(parameters.drop_last()) {
            Some(value) => Some(value),
            None => quality_of(parameters.last()),
        }
    }
}

/// The value of a parameter `q=value`.
pub open spec fn quality_of(parameter: Seq<char>) -> Option<Seq<char>> {
    match text::first_index(parameter, '=') {
        Some(i) => if text::lower(trimmed_text(parameter.take(i))) == "q"@ {
            Some(parameter.skip(i + 1))
        } else {
            None
        },
        None => None,
    }
}

/// Whether a media range is HTML, with a quality that accepts it.
pub open spec fn is_accepted_html(media_range: Seq<char>) -> bool {
    let parts = text::split(media_range, ';');
    text::lower(trimmed_text(parts[0])) == "text/html"@ && match quality_parameter(
        parts.skip(1),
    ) {
        Some(value) => quality::is_accepting(trimmed_text(value)),
        None => true,
    }
}

/// Whether one of the values of `Accept` names HTML as accepted.
pub open spec fn accepts_html(values: Seq<Seq<u8>>) -> bool {
    exists|i: int, j: int|
        0 <= i < values.len() && visible_text(values[i]) is Some && 0 <= j < text::split(
            visible_text(values[i])->0,
            ',',
        ).len() && is_accepted_html(
            #[trigger] text::split(visible_text(values[i])->0, ',')[j],
        )
}

/// Whether a loading page is wanted: for GET and HEAD that accept HTML explicitly.
pub open spec fn wants_html(method: Seq<char>, accept: Seq<Seq<u8>>) -> bool {
    (method == "GET"@ || method == "HEAD"@) && accepts_html(accept)
}

/// The text of a field value, where it is visible ASCII.
pub fn to_visible_text(value: &[u8]) -> (r: Option<Vec<char>>)
    ensures
        match r {
            Some(text) => visible_text(value@) == Some(text@),
            None => visible_text(value@) is None,
        },
{
    let mut text: Vec<char> = Vec::new();
    for i in 0..value.len()
        invariant
            text@ == headers::ascii_text(value@.take(i as int)),
            forall|j: int|
                0 <= j < i ==> (0x20 <= #[trigger] value@[j] && value@[j] < 0x7f) || value@[j]
                    == 0x9,
    {
        let b = value[i];
        if !((0x20 <= b && b < 0x7f) || b == 0x9) {
            return None;
        }
        text.push(b as char);
        assert(text@ =~= headers::ascii_text(value@.take(i + 1)));
    }
    assert(value@.take(value@.len() as int) =~= value@);
    Some(text)
}

fn trim_text(value: &[char]) -> (r: &[char])
    ensures
        r@ == trimmed_text(value@),
{
    let mut start: usize = 0;
    let end = value.len();
    assert(value@.subrange(0, end as int) =~= value@);
    while start < end && value[start].is_whitespace()
        invariant
            start <= end == value@.len(),
            trimmed_text(value@) == trimmed_text(value@.subrange(start as int, end as int)),
        decreases end - start,
    {
        assert(value@.subrange(start as int, end as int).skip(1) =~= value@.subrange(
            start + 1,
            end as int,
        ));
        start = start + 1;
    }
    let mut stop: usize = end;
    while start < stop && value[stop - 1].is_whitespace()
        invariant
            start <= stop <= value@.len(),
            start < stop ==> !config::is_whitespace_char(value@[start as int]),
            trimmed_text(value@) == trimmed_text(value@.subrange(start as int, stop as int)),
        decreases stop - start,
    {
        assert(value@.subrange(start as int, stop as int).drop_last() =~= value@.subrange(
            start as int,
            stop - 1,
        ));
        stop = stop - 1;
    }
    slice_subrange(value, start, stop)
}

fn is_folded(value: &[char], expected: &str) -> (r: bool)
    ensures
        r == (text::lower(value@) == expected@),
{
    let chars = chars_of(expected);
    if chars.len() != value.len() {
        assert(text::lower(value@).len() != expected@.len());
        return false;
    }
    for i in 0..value.len()
        invariant
            chars@ == expected@,
            chars@.len() == value@.len(),
            forall|j: int| 0 <= j < i ==> text::lower_char(value@[j]) == chars@[j],
    {
        if to_lower_char(value[i]) != chars[i] {
            assert(text::lower(value@)[i as int] != chars@[i as int]);
            return false;
        }
    }
    assert(text::lower(value@) =~= expected@);
    true
}

fn find_quality(parameter: &[char]) -> (r: Option<Vec<char>>)
    ensures
        match r {
            Some(value) => quality_of(parameter@) == Some(value@),
            None => quality_of(parameter@) is None,
        },
{
    proof {
        text::lemma_first_index(parameter@, '=');
    }
    let end = parameter.len();
    match find_char(parameter, '=') {
        Some(i) => {
            let name = slice_subrange(parameter, 0, i);
            let value = slice_subrange(parameter, i + 1, end);
            assert(name@ =~= parameter@.take(i as int));
            assert(value@ =~= parameter@.skip(i + 1));
            if is_folded(trim_text(name), "q") {
                Some(vstd::slice::slice_to_vec(value))
            } else {
                None
            }
        },
        None => None,
    }
}

proof fn lemma_quality_stays(parameters: Seq<Seq<char>>, n: int)
    requires
        0 <= n <= parameters.len(),
        quality_parameter(parameters.take(n)) is Some,
    ensures
        quality_parameter(parameters) == quality_parameter(parameters.take(n)),
    decreases parameters.len(),
{
    if n == parameters.len() {
        assert(parameters.take(n) =~= parameters);
    } else {
        assert(parameters.drop_last().take(n) =~= parameters.take(n));
        lemma_quality_stays(parameters.drop_last(), n);
    }
}

fn media_range_is_accepted(media_range: &[char]) -> (r: bool)
    ensures
        r == is_accepted_html(media_range@),
{
    let parts = split_chars(media_range, ';');
    let ghost all = text::split(media_range@, ';');
    proof {
        text::lemma_split_len(media_range@, ';');
        assert(all.len() == parts@.len());
        assert(all[0] == parts@[0]@);
    }
    if !is_folded(trim_text(&parts[0]), "text/html") {
        return false;
    }
    let ghost parameters = all.skip(1);
    for i in 1..parts.len()
        invariant
            1 <= i <= parts@.len(),
            all == text::views(parts@),
            all == text::split(media_range@, ';'),
            text::lower(trimmed_text(all[0])) == "text/html"@,
            parameters == all.skip(1),
            quality_parameter(parameters.take(i - 1)) is None,
    {
        assert(all[i as int] == parts@[i as int]@);
        assert(parameters.take(i as int).drop_last() =~= parameters.take(i - 1));
        assert(parameters.take(i as int).last() == all[i as int]);
        if let Some(value) = find_quality(&parts[i]) {
            proof {
                lemma_quality_stays(parameters, i as int);
            }
            return quality::accepts(trim_text(&value));
        }
    }
    assert(parameters.take(parameters.len() as int) =~= parameters);
    true
}

/// Whether a media range is HTML, with a quality that accepts it.
pub fn html_media_range_is_accepted(media_range: &str) -> (r: bool)
    ensures
        r == is_accepted_html(media_range@),
{
    media_range_is_accepted(&chars_of(media_range))
}

fn value_accepts_html(text: &[char]) -> (r: bool)
    ensures
        r == exists|j: int|
            0 <= j < text::split(text@, ',').len() && is_accepted_html(
                #[trigger] text::split(text@, ',')[j],
            ),
{
    let ranges = split_chars(text, ',');
    let ghost all = text::split(text@, ',');
    for j in 0..ranges.len()
        invariant
            all == text::views(ranges@),
            all == text::split(text@, ','),
            forall|k: int| 0 <= k < j ==> !is_accepted_html(#[trigger] all[k]),
    {
        assert(all[j as int] == ranges@[j as int]@);
        if media_range_is_accepted(&ranges[j]) {
            return true;
        }
    }
    false
}

/// Whether a loading page is wanted: for GET and HEAD that accept HTML explicitly.
pub fn prefers_html_loading(request: &RequestHead) -> (r: bool)
    ensures
        r == wants_html(
            request.method@,
            headers::values_of(headers::header_fields(request.headers), "accept"@),
        ),
{
    if !(*request.method.as_str() == *"GET") && !(*request.method.as_str() == *"HEAD") {
        return false;
    }
    proof {
        headers::lemma_known_names();
    }
    let values = header_values(&request.headers, "accept");
    let ghost all = headers::values_of(
        headers::header_fields(request.headers),
        "accept"@,
    );
    for i in 0..values.len()
        invariant
            all == text::views(values@),
            all == headers::values_of(
                headers::header_fields(request.headers),
                "accept"@,
            ),
            request.method@ == "GET"@ || request.method@ == "HEAD"@,
            forall|k: int, j: int|
                0 <= k < i && visible_text(all[k]) is Some && 0 <= j < text::split(
                    visible_text(all[k])->0,
                    ',',
                ).len() ==> !is_accepted_html(
                    #[trigger] text::split(visible_text(all[k])->0, ',')[j],
                ),
    {
        assert(all[i as int] == values@[i as int]@);
        if let Some(text) = to_visible_text(&values[i]) {
            if value_accepts_html(&text) {
                assert(accepts_html(all)) by {
                    let ranges = text::split(visible_text(all[i as int])->0, ',');
                    let j = choose|j: int|
                        0 <= j < ranges.len() && is_accepted_html(#[trigger] ranges[j]);
                    assert(is_accepted_html(
                        text::split(visible_text(all[i as int])->0, ',')[j],
                    ));
                }
                return true;
            }
        }
    }
    false
}

/// A field value has a text exactly when all its bytes are visible ASCII, spaces or
/// tabs; the text then has the same characters one by one.
pub proof fn law_visible_bytes_are_text(value: &[u8], r: Option<Vec<char>>)
    requires
        call_ensures(to_visible_text, (value,), r),
    ensures
        r is Some <==> forall|i: int|
            0 <= i < value@.len() ==> 0x20 <= #[trigger] value@[i] <= 0x7e || value@[i] == 0x9,
        r matches Some(text) ==> {
            &&& text@.len() == value@.len()
            &&& forall|i: int|
                0 <= i < value@.len() ==> #[trigger] text@[i] as u32 == value@[i] as u32
        },
{
    if let Some(text) = r {
        let shown = headers::ascii_text(value@);
        assert(text@ == shown);
        assert forall|i: int| 0 <= i < value@.len() implies #[trigger] text@[i] as u32
            == value@[i] as u32 by {
            assert(shown[i] == value@[i] as char);
            assert(0x20 <= value@[i] <= 0x7e || value@[i] == 0x9);
        }
    }
}

/// A field of a response, its name and its value.
pub open spec fn is_field(field: (&'static str, String), name: Seq<char>, value: Seq<char>) -> bool {
    field.0@ == name && field.1@ == value
}

/// What a response holds, part by part.
pub proof fn lemma_response_parts(response: LocalResponse)
    ensures
        response@.status == response.status,
        response@.body == response.body@,
        response@.omit_body == response.omit_body,
        response@.fields.len() == response.fields@.len(),
        forall|i: int|
            0 <= i < response.fields@.len() ==> (#[trigger] response@.fields[i]) == (
            response.fields@[i].0@, response.fields@[i].1@),
{
}

/// A request that comes while the gateway shuts down is told so with status 503, not
/// to be cached; to HEAD, and to nothing else, the body is left out.
pub proof fn law_shutting_down_is_said(request: RequestHead, response: LocalResponse)
    requires
        call_ensures(shutting_down_response, (&request,), response),
    ensures
        response.status == 503,
        response.body@ == "gateway shutting down\n"@,
        response.omit_body <==> request.method@ == "HEAD"@,
        response.fields@.len() == 3,
        is_field(response.fields@[0], "Content-Type"@, "text/plain; charset=utf-8"@),
        is_field(response.fields@[1], "Cache-Control"@, "no-store"@),
        is_field(response.fields@[2], "Content-Length"@, text::decimal(22)),
{
    lemma_response_parts(response);
    let all = response@.fields;
    assert(all[0] == ("Content-Type"@, "text/plain; charset=utf-8"@));
    assert(all[1] == ("Cache-Control"@, "no-store"@));
    assert(all[2].0 == "Content-Length"@);
    reveal_strlit("gateway shutting down\n");
    vstd::utf8::is_ascii_chars_encode_utf8("gateway shutting down\n"@);
}

/// A request for an unknown host is told so with status 421, not to be cached, and
/// always with the body.
pub proof fn law_unknown_host_is_said(response: LocalResponse)
    requires
        call_ensures(unknown_host_response, (), response),
    ensures
        response.status == 421,
        response.body@ == "unknown host\n"@,
        !response.omit_body,
        response.fields@.len() == 3,
        is_field(response.fields@[0], "Content-Type"@, "text/plain; charset=utf-8"@),
        is_field(response.fields@[1], "Cache-Control"@, "no-store"@),
        is_field(response.fields@[2], "Content-Length"@, text::decimal(13)),
{
    lemma_response_parts(response);
    let all = response@.fields;
    assert(all[0] == ("Content-Type"@, "text/plain; charset=utf-8"@));
    assert(all[1] == ("Cache-Control"@, "no-store"@));
    assert(all[2].0 == "Content-Length"@);
    reveal_strlit("unknown host\n");
    vstd::utf8::is_ascii_chars_encode_utf8("unknown host\n"@);
}

/// The page that is shown while a service starts, and what is said instead.
pub proof fn law_loading_bodies()
    ensures
        LOADING_HTML_BODY@
            == "<!doctype html><html><head><meta charset=\"utf-8\"><meta http-equiv=\"refresh\" content=\"5\"><title>Loading</title></head><body>Service is starting.</body></html>\n"@,
        LOADING_JSON_BODY@ == "{\"status\":\"loading\",\"retry_after\":5}\n"@,
{
}

/// While a service starts, a request is answered with status 503, to be made again after
/// five seconds and not to be cached. Where a page is wanted the body is the page, else
/// JSON; its length is told, and it is left out exactly when the method is HEAD.
pub proof fn law_loading_is_said(request: RequestHead, html: bool, response: LocalResponse)
    requires
        call_ensures(prefers_html_loading, (&request,), html),
        call_ensures(loading_response, (&request,), response),
    ensures
        response.status == 503,
        response.omit_body <==> request.method@ == "HEAD"@,
        response.fields@.len() == 4,
        is_field(response.fields@[1], "Retry-After"@, "5"@),
        is_field(response.fields@[2], "Cache-Control"@, "no-store"@),
        html ==> {
            &&& response.body@ == LOADING_HTML_BODY@
            &&& is_field(response.fields@[0], "Content-Type"@, "text/html; charset=utf-8"@)
            &&& is_field(response.fields@[3], "Content-Length"@, text::decimal(158))
        },
        !html ==> {
            &&& response.body@ == LOADING_JSON_BODY@
            &&& is_field(response.fields@[0], "Content-Type"@, "application/json"@)
            &&& is_field(response.fields@[3], "Content-Length"@, text::decimal(37))
        },
        request.method@ != "GET"@ && request.method@ != "HEAD"@ ==> response.body@
            == LOADING_JSON_BODY@,
{
    lemma_response_parts(response);
    let all = response@.fields;
    assert(all[0].0 == "Content-Type"@);
    assert(all[1] == ("Retry-After"@, "5"@));
    assert(all[2] == ("Cache-Control"@, "no-store"@));
    assert(all[3].0 == "Content-Length"@);
    if html {
        reveal_strlit(
            "<!doctype html><html><head><meta charset=\"utf-8\"><meta http-equiv=\"refresh\" content=\"5\"><title>Loading</title></head><body>Service is starting.</body></html>\n",
        );
        vstd::utf8::is_ascii_chars_encode_utf8(LOADING_HTML_BODY@);
    } else {
        reveal_strlit("{\"status\":\"loading\",\"retry_after\":5}\n");
        vstd::utf8::is_ascii_chars_encode_utf8(LOADING_JSON_BODY@);
    }
}

/// Whether a character is one of a word in lower case, written in either case.
pub open spec fn is_letter_of(c: char, expected: char) -> bool {
    c == expected || ('a' <= expected && expected <= 'z' && c as u32 + 0x20 == expected as u32)
}

/// A space or a tab.
pub open spec fn is_gap(c: char) -> bool {
    c == ' ' || c == '\t'
}

/// Whether `text/html` stands at `at`, in either case, with nothing but spaces and tabs
/// before it and between it and `end`, where the text ends or a semicolon stands.
pub open spec fn names_html(s: Seq<char>, at: int, end: int) -> bool {
    &&& 0 <= at
    &&& at + 9 <= end <= s.len()
    &&& end == s.len() || s[end] == ';'
    &&& forall|k: int| 0 <= k < at ==> is_gap(#[trigger] s[k])
    &&& forall|k: int| at + 9 <= k < end ==> is_gap(#[trigger] s[k])
    &&& forall|k: int| 0 <= k < 9 ==> is_letter_of(s[at + k], #[trigger] "text/html"@[k])
}

/// What is left when the white space at either end is taken away.
#[verifier::spinoff_prover]
proof fn lemma_trimmed_text(s: Seq<char>) -> (r: (int, int))
    ensures
        0 <= r.0 <= r.1 <= s.len(),
        trimmed_text(s) == s.subrange(r.0, r.1),
        forall|k: int| 0 <= k < r.0 ==> config::is_whitespace_char(#[trigger] s[k]),
        forall|k: int| r.1 <= k < s.len() ==> config::is_whitespace_char(#[trigger] s[k]),
        r.0 < r.1 ==> !config::is_whitespace_char(s[r.0]) && !config::is_whitespace_char(
            s[r.1 - 1],
        ),
    decreases s.len(),
{
    if s.len() == 0 {
        assert(s =~= s.subrange(0, 0));
        (0, 0)
    } else if config::is_whitespace_char(s[0]) {
        let rest = s.skip(1);
        let (l, r) = lemma_trimmed_text(rest);
        assert(rest.subrange(l, r) =~= s.subrange(l + 1, r + 1));
        assert forall|k: int| 0 <= k < l + 1 implies config::is_whitespace_char(
            #[trigger] s[k],
        ) by {
            if k > 0 {
                assert(rest[k - 1] == s[k]);
            }
        }
        assert forall|k: int| r + 1 <= k < s.len() implies config::is_whitespace_char(
            #[trigger] s[k],
        ) by {
            assert(rest[k - 1] == s[k]);
        }
        (l + 1, r + 1)
    } else if config::is_whitespace_char(s.last()) {
        let rest = s.drop_last();
        let (l, r) = lemma_trimmed_text(rest);
        assert(rest.subrange(l, r) =~= s.subrange(l, r));
        assert forall|k: int| 0 <= k < l implies config::is_whitespace_char(#[trigger] s[k]) by {
            assert(rest[k] == s[k]);
        }
        assert forall|k: int| r <= k < s.len() implies config::is_whitespace_char(
            #[trigger] s[k],
        ) by {
            if k < rest.len() {
                assert(rest[k] == s[k]);
            }
        }
        (l, r)
    } else {
        assert(s =~= s.subrange(0, s.len() as int));
        (0, s.len() as int)
    }
}

/// Gaps around a text are what is taken away.
proof fn lemma_trimmed_core(s: Seq<char>, l: int, r: int)
    requires
        0 <= l < r <= s.len(),
        forall|k: int| 0 <= k < l ==> is_gap(#[trigger] s[k]),
        forall|k: int| r <= k < s.len() ==> is_gap(#[trigger] s[k]),
        !config::is_whitespace_char(s[l]),
        !config::is_whitespace_char(s[r - 1]),
    ensures
        trimmed_text(s) == s.subrange(l, r),
{
    let (a, b) = lemma_trimmed_text(s);
    assert forall|k: int| 0 <= k < l implies config::is_whitespace_char(#[trigger] s[k]) by {
        assert(is_gap(s[k]));
    }
    assert forall|k: int| r <= k < s.len() implies config::is_whitespace_char(#[trigger] s[k]) by {
        assert(is_gap(s[k]));
    }
    if a < b {
        assert(a <= l && l < b);
        assert(l <= a);
        assert(r - 1 < b && b - 1 < r);
    } else {
        assert(config::is_whitespace_char(s[l]));
    }
}

/// A part that names HTML folds to it.
#[verifier::spinoff_prover]
proof fn lemma_names_html(s: Seq<char>, at: int, end: int)
    requires
        names_html(s, at, end),
    ensures
        forall|k: int| 0 <= k < end ==> #[trigger] s[k] != ';' && s[k] != ',' && s[k] != '=',
        text::split(s, ';')[0] == s.take(end),
        end == s.len() ==> text::split(s, ';') == seq![s],
        end < s.len() ==> text::split(s, ';') == seq![s.take(end)] + text::split(
            s.skip(end + 1),
            ';',
        ),
        text::lower(trimmed_text(s.take(end))) == "text/html"@,
{
    reveal_strlit("text/html");
    let w = "text/html"@;
    assert forall|k: int| 0 <= k < end implies #[trigger] s[k] != ';' && s[k] != ',' && s[k]
        != '=' by {
        if at <= k < at + 9 {
            assert(is_letter_of(s[at + (k - at)], w[k - at]));
        }
    }
    let part = s.take(end);
    if end == s.len() {
        text::lemma_split_whole(s, ';');
        assert(part =~= s);
    } else {
        text::lemma_split_front(s, ';', end);
    }
    assert(is_letter_of(s[at + 0], w[0]));
    assert(is_letter_of(s[at + 8], w[8]));
    assert forall|k: int| 0 <= k < at implies is_gap(#[trigger] part[k]) by {
        assert(part[k] == s[k]);
    }
    assert forall|k: int| at + 9 <= k < part.len() implies is_gap(#[trigger] part[k]) by {
        assert(part[k] == s[k]);
    }
    lemma_trimmed_core(part, at, at + 9);
    let core = part.subrange(at, at + 9);
    assert forall|k: int| 0 <= k < 9 implies text::lower(core)[k] == w[k] by {
        assert(core[k] == s[at + k]);
        assert(is_letter_of(s[at + k], w[k]));
    }
    assert(text::lower(core) =~= w);
}

proof fn lemma_no_quality(parameters: Seq<Seq<char>>)
    requires
        forall|i: int, k: int|
            0 <= i < parameters.len() && 0 <= k < parameters[i].len() ==> #[trigger] parameters[i][k]
                != '=',
    ensures
        quality_parameter(parameters) is None,
    decreases parameters.len(),
{
    if parameters.len() > 0 {
        let front = parameters.drop_last();
        assert forall|i: int, k: int|
            0 <= i < front.len() && 0 <= k < front[i].len() implies #[trigger] front[i][k]
            != '=' by {
            assert(parameters[i][k] != '=');
        }
        lemma_no_quality(front);
        let last = parameters.last();
        text::lemma_first_index(last, '=');
        if let Some(i) = text::first_index(last, '=') {
            assert(parameters[parameters.len() - 1][i] != '=');
        }
    }
}

/// A media range that names HTML is accepted where no parameter has a value, and one
/// that does not name it is not.
pub proof fn law_html_is_accepted(media_range: &str, at: int, end: int, r: bool)
    requires
        call_ensures(html_media_range_is_accepted, (media_range,), r),
    ensures
        names_html(media_range@, at, end) && (forall|k: int|
            end <= k < media_range@.len() ==> #[trigger] media_range@[k] != '=') ==> r,
        r ==> exists|start: int| #[trigger] begins_with_html(media_range@, start),
{
    let s = media_range@;
    if names_html(s, at, end) && (forall|k: int| end <= k < s.len() ==> #[trigger] s[k] != '=') {
        lemma_names_html(s, at, end);
        let parts = text::split(s, ';');
        let parameters = parts.skip(1);
        if end == s.len() {
            assert(parameters =~= Seq::<Seq<char>>::empty());
        } else {
            let rest = s.skip(end + 1);
            assert(parameters =~= text::split(rest, ';'));
            assert forall|i: int, k: int|
                0 <= i < parameters.len() && 0 <= k < parameters[i].len() implies #[trigger]
            parameters[i][k] != '=' by {
                text::lemma_piece_stands_between(rest, ';', i);
                let from = choose|from: int| #[trigger]
                    text::stands_between(rest, ';', parameters[i], from);
                assert(parameters[i][k] == rest[from + k]);
                assert(rest[from + k] == s[end + 1 + from + k]);
            }
        }
        lemma_no_quality(parameters);
        assert(is_accepted_html(s));
    }
    if r {
        let start = lemma_accepted_range_names_html(s);
        assert(begins_with_html(s, start));
    }
}

/// Whether the letters `text/html` stand at a place in a text, in either case, with
/// nothing but white space before them.
pub open spec fn begins_with_html(s: Seq<char>, start: int) -> bool {
    &&& 0 <= start
    &&& start + 9 <= s.len()
    &&& forall|k: int| 0 <= k < 9 ==> is_letter_of(s[start + k], #[trigger] "text/html"@[k])
    &&& forall|k: int| 0 <= k < start ==> config::is_whitespace_char(#[trigger] s[k])
}

proof fn lemma_accepted_range_names_html(s: Seq<char>) -> (start: int)
    requires
        is_accepted_html(s),
    ensures
        0 <= start,
        start + 9 <= s.len(),
        forall|k: int| 0 <= k < 9 ==> is_letter_of(s[start + k], #[trigger] "text/html"@[k]),
        forall|k: int| 0 <= k < start ==> config::is_whitespace_char(#[trigger] s[k]),
{
    reveal_strlit("text/html");
    let w = "text/html"@;
    text::lemma_first_index(s, ';');
    let end = match text::first_index(s, ';') {
        Some(i) => i,
        None => s.len() as int,
    };
    let part = s.take(end);
    if end < s.len() {
        text::lemma_split_front(s, ';', end);
    } else {
        text::lemma_split_whole(s, ';');
        assert(part =~= s);
    }
    assert(text::split(s, ';')[0] == part);
    let (l, r) = lemma_trimmed_text(part);
    let core = part.subrange(l, r);
    assert(text::lower(core).len() == core.len());
    assert forall|k: int| 0 <= k < 9 implies is_letter_of(s[l + k], #[trigger] w[k]) by {
        assert(text::lower(core)[k] == w[k]);
        assert(text::lower(core)[k] == text::lower_char(core[k]));
        assert(core[k] == s[l + k]);
    }
    assert forall|k: int| 0 <= k < l implies config::is_whitespace_char(#[trigger] s[k]) by {
        assert(part[k] == s[k]);
    }
    l
}

/// A media range that names HTML with a quality as its first parameter is accepted
/// exactly when the quality is. Around the name, the equals sign and the quality may be
/// spaces and tabs; what stands behind a further semicolon does not count.
pub proof fn law_html_is_accepted_by_its_quality(
    media_range: &str,
    at: int,
    end: int,
    q: int,
    equals: int,
    from: int,
    to: int,
    stop: int,
    value: &[char],
    accepted: bool,
    r: bool,
)
    requires
        call_ensures(html_media_range_is_accepted, (media_range,), r),
        call_ensures(quality::accepts, (value,), accepted),
        names_html(media_range@, at, end),
        end < q < equals < from < to <= stop <= media_range@.len(),
        media_range@[q] == 'q' || media_range@[q] == 'Q',
        media_range@[equals] == '=',
        stop == media_range@.len() || media_range@[stop] == ';',
        forall|k: int| end < k < q ==> is_gap(#[trigger] media_range@[k]),
        forall|k: int| q < k < equals ==> is_gap(#[trigger] media_range@[k]),
        forall|k: int| equals < k < from ==> is_gap(#[trigger] media_range@[k]),
        forall|k: int| to <= k < stop ==> is_gap(#[trigger] media_range@[k]),
        forall|k: int| from <= k < to ==> #[trigger] media_range@[k] != ';',
        value@ == media_range@.subrange(from, to),
        0x20 < value@[0] as u32 <= 0x7e,
        0x20 < value@[value@.len() - 1] as u32 <= 0x7e,
    ensures
        r == accepted,
{
    let s = media_range@;
    lemma_names_html(s, at, end);
    let rest = s.skip(end + 1);
    let parameter = s.subrange(end + 1, stop);
    let parameters = text::split(s, ';').skip(1);
    assert(parameters =~= text::split(rest, ';'));
    let width = stop - end - 1;
    assert(parameters[0] == parameter) by {
        assert forall|k: int| 0 <= k < width implies #[trigger] rest[k] != ';' by {
            let m = end + 1 + k;
            assert(rest[k] == s[m]);
            if m < q || q < m < equals || equals < m < from || to <= m < stop {
                assert(is_gap(s[m]));
            }
        }
        assert(rest.take(width) =~= parameter);
        if stop == s.len() {
            assert(rest =~= parameter);
            text::lemma_split_whole(rest, ';');
        } else {
            assert(rest[width] == s[stop]);
            text::lemma_split_front(rest, ';', width);
        }
    }
    let shift = end + 1;
    assert forall|k: int| 0 <= k < width implies #[trigger] parameter[k] == s[shift + k] by {}
    assert(parameter.subrange(from - shift, to - shift) =~= value@);
    lemma_quality_of_parameter(
        parameter,
        q - shift,
        equals - shift,
        from - shift,
        to - shift,
    );
    let behind = quality_of(parameter)->0;
    let one = parameters.take(1);
    assert(one.last() == parameter);
    assert(one.drop_last() =~= Seq::<Seq<char>>::empty());
    assert(quality_parameter(one.drop_last()) is None);
    assert(quality_parameter(one) == Some(behind));
    lemma_quality_stays(parameters, 1);
}

/// The quality that a parameter gives, with gaps around its parts.
proof fn lemma_quality_of_parameter(parameter: Seq<char>, q: int, equals: int, from: int, to: int)
    requires
        0 <= q < equals < from < to <= parameter.len(),
        parameter[q] == 'q' || parameter[q] == 'Q',
        parameter[equals] == '=',
        forall|k: int| 0 <= k < q ==> is_gap(#[trigger] parameter[k]),
        forall|k: int| q < k < equals ==> is_gap(#[trigger] parameter[k]),
        forall|k: int| equals < k < from ==> is_gap(#[trigger] parameter[k]),
        forall|k: int| to <= k < parameter.len() ==> is_gap(#[trigger] parameter[k]),
        0x20 < parameter[from] as u32 <= 0x7e,
        0x20 < parameter[to - 1] as u32 <= 0x7e,
    ensures
        quality_of(parameter) is Some,
        trimmed_text(quality_of(parameter)->0) == parameter.subrange(from, to),
{
    text::lemma_first_index_unique(parameter, '=', equals);
    let name = parameter.take(equals);
    assert forall|k: int| 0 <= k < q implies is_gap(#[trigger] name[k]) by {
        assert(name[k] == parameter[k]);
    }
    assert forall|k: int| q + 1 <= k < name.len() implies is_gap(#[trigger] name[k]) by {
        assert(name[k] == parameter[k]);
    }
    lemma_trimmed_core(name, q, q + 1);
    reveal_strlit("q");
    assert(text::lower(name.subrange(q, q + 1)) =~= "q"@);
    let behind = parameter.skip(equals + 1);
    let l = from - equals - 1;
    let h = to - equals - 1;
    assert forall|k: int| 0 <= k < l implies is_gap(#[trigger] behind[k]) by {
        assert(behind[k] == parameter[equals + 1 + k]);
    }
    assert forall|k: int| h <= k < behind.len() implies is_gap(#[trigger] behind[k]) by {
        assert(behind[k] == parameter[equals + 1 + k]);
    }
    lemma_trimmed_core(behind, l, h);
    assert(behind.subrange(l, h) =~= parameter.subrange(from, to));
}

proof fn lemma_other_parameter(parameter: Seq<char>, rest: Seq<Seq<char>>)
    requires
        quality_of(parameter) is None,
    ensures
        quality_parameter(seq![parameter] + rest) == quality_parameter(rest),
    decreases rest.len(),
{
    let all = seq![parameter] + rest;
    if rest.len() == 0 {
        assert(all.drop_last() =~= Seq::<Seq<char>>::empty());
        assert(quality_parameter(all.drop_last()) is None);
        assert(all.last() == parameter);
    } else {
        assert(all.drop_last() =~= seq![parameter] + rest.drop_last());
        assert(all.last() == rest.last());
        lemma_other_parameter(parameter, rest.drop_last());
    }
}

/// A parameter before the others counts for nothing unless it is a quality: a media range
/// is accepted with it exactly when it is accepted without it. It is no quality where it
/// has no equals sign, or begins, behind spaces and tabs, with another letter than `q`.
pub proof fn law_other_parameters_do_not_count(
    with: &str,
    accepted_with: bool,
    without: &str,
    accepted_without: bool,
    name: Seq<char>,
    parameter: Seq<char>,
    at: int,
    rest: Seq<char>,
)
    requires
        call_ensures(html_media_range_is_accepted, (with,), accepted_with),
        call_ensures(html_media_range_is_accepted, (without,), accepted_without),
        forall|k: int| 0 <= k < name.len() ==> #[trigger] name[k] != ';',
        forall|k: int| 0 <= k < parameter.len() ==> #[trigger] parameter[k] != ';',
        rest.len() == 0 || rest[0] == ';',
        with@ == name.push(';') + parameter + rest,
        without@ == name + rest,
        !parameter.contains('=') || 0 <= at < parameter.len() && (forall|k: int|
            0 <= k < at ==> is_gap(#[trigger] parameter[k])) && ' ' < parameter[at]
            && parameter[at] <= '~' && parameter[at] != 'q' && parameter[at] != 'Q',
    ensures
        accepted_with == accepted_without,
{
    let a = with@;
    let b = without@;
    let n = name.len() as int;
    let tail = if rest.len() == 0 {
        Seq::<Seq<char>>::empty()
    } else {
        text::split(rest.skip(1), ';')
    };
    assert(quality_of(parameter) is None) by {
        lemma_is_no_quality(parameter, at);
    }
    lemma_pieces(name, rest);
    lemma_pieces(parameter, rest);
    let behind = parameter + rest;
    assert(a =~= name + behind.insert(0, ';'));
    assert(a[n] == ';');
    assert forall|j: int| 0 <= j < n implies a[j] != ';' by {
        assert(a[j] == name[j]);
    }
    text::lemma_split_front(a, ';', n);
    assert(a.take(n) =~= name);
    assert(a.skip(n + 1) =~= behind);
    let all = text::split(a, ';');
    assert(all =~= seq![name] + (seq![parameter] + tail));
    assert(text::split(b, ';') =~= seq![name] + tail);
    assert(all.skip(1) =~= seq![parameter] + tail);
    assert(text::split(b, ';').skip(1) =~= tail);
    assert(all[0] == text::split(b, ';')[0]);
    lemma_other_parameter(parameter, tail);
}

/// The pieces of a text that begins with one without semicolons.
proof fn lemma_pieces(first: Seq<char>, rest: Seq<char>)
    requires
        forall|k: int| 0 <= k < first.len() ==> #[trigger] first[k] != ';',
        rest.len() == 0 || rest[0] == ';',
    ensures
        text::split(first + rest, ';') == seq![first] + if rest.len() == 0 {
            Seq::<Seq<char>>::empty()
        } else {
            text::split(rest.skip(1), ';')
        },
{
    let s = first + rest;
    let n = first.len() as int;
    if rest.len() == 0 {
        assert(s =~= first);
        text::lemma_split_whole(first, ';');
        assert(seq![first] + Seq::<Seq<char>>::empty() =~= seq![first]);
    } else {
        assert(s[n] == ';');
        assert forall|j: int| 0 <= j < n implies s[j] != ';' by {
            assert(s[j] == first[j]);
        }
        text::lemma_split_front(s, ';', n);
        assert(s.take(n) =~= first);
        assert(s.skip(n + 1) =~= rest.skip(1));
    }
}

proof fn lemma_is_no_quality(parameter: Seq<char>, at: int)
    requires
        !parameter.contains('=') || 0 <= at < parameter.len() && (forall|k: int|
            0 <= k < at ==> is_gap(#[trigger] parameter[k])) && ' ' < parameter[at]
            && parameter[at] <= '~' && parameter[at] != 'q' && parameter[at] != 'Q',
    ensures
        quality_of(parameter) is None,
{
    text::lemma_first_index(parameter, '=');
    if let Some(e) = text::first_index(parameter, '=') {
        assert(parameter.contains(parameter[e]));
        let name = parameter.take(e);
        let (l, r) = lemma_trimmed_text(name);
        let core = name.subrange(l, r);
        reveal_strlit("q");
        if text::lower(core) == "q"@ {
            assert(text::lower(core).len() == 1);
            assert(text::lower(core)[0] == text::lower_char(core[0]));
            assert(core[0] == 'q' || core[0] == 'Q');
            assert(name[l] == core[0]);
            assert(parameter[l] == name[l]);
            if at < l {
                assert(config::is_whitespace_char(name[at]));
                assert(name[at] == parameter[at]);
            } else if l < at {
                assert(is_gap(parameter[l]));
            }
        }
    }
}

/// Whether a value is all visible and one of its members, between commas or ends, is a
/// media range that accepts HTML.
pub open spec fn value_offers_html(value: Seq<u8>, from: int, to: int) -> bool {
    &&& forall|k: int|
        0 <= k < value.len() ==> 0x20 <= #[trigger] value[k] <= 0x7e || value[k] == 0x9
    &&& 0 <= from <= to <= value.len()
    &&& from == 0 || value[from - 1] == 0x2c
    &&& to == value.len() || value[to] == 0x2c
    &&& forall|k: int| from <= k < to ==> #[trigger] value[k] != 0x2c
    &&& is_accepted_html(Seq::new((to - from) as nat, |k: int| value[from + k] as char))
}

/// A page is wanted exactly when the method is GET or HEAD and a member of one of the
/// `Accept` fields, all of it visible, accepts HTML.
pub proof fn law_page_is_wanted_by_accept(request: RequestHead, r: bool)
    requires
        call_ensures(prefers_html_loading, (&request,), r),
    ensures
        ({
            let fields = headers::header_fields(request.headers);
            r <==> (request.method@ == "GET"@ || request.method@ == "HEAD"@)
                && fields.contains_key("accept"@) && exists|i: int, from: int, to: int|
                0 <= i < fields["accept"@].len() && #[trigger] value_offers_html(
                    fields["accept"@][i],
                    from,
                    to,
                )
        }),
{
    let fields = headers::header_fields(request.headers);
    let values = headers::values_of(fields, "accept"@);
    if accepts_html(values) {
        let (i, j) = choose|i: int, j: int|
            0 <= i < values.len() && visible_text(values[i]) is Some && 0 <= j < text::split(
                visible_text(values[i])->0,
                ',',
            ).len() && is_accepted_html(
                #[trigger] text::split(visible_text(values[i])->0, ',')[j],
            );
        let value = values[i];
        let shown = headers::ascii_text(value);
        let pieces = text::split(shown, ',');
        text::lemma_piece_stands_between(shown, ',', j);
        let from = choose|from: int| #[trigger]
            text::stands_between(shown, ',', pieces[j], from);
        let to = from + pieces[j].len();
        text::lemma_split_joined(shown, ',');
        assert forall|k: int| from <= k < to implies #[trigger] value[k] != 0x2c by {
            assert(shown[k] == value[k] as char);
            assert(pieces[j][k - from] == shown[k]);
        }
        if from > 0 {
            assert(shown[from - 1] == value[from - 1] as char);
            assert(0x20 <= value[from - 1] <= 0x7e || value[from - 1] == 0x9);
        }
        if to < value.len() {
            assert(shown[to] == value[to] as char);
            assert(0x20 <= value[to] <= 0x7e || value[to] == 0x9);
        }
        assert(pieces[j] =~= Seq::new((to - from) as nat, |k: int| value[from + k] as char));
        assert(value_offers_html(fields["accept"@][i], from, to));
    }
    if fields.contains_key("accept"@) && exists|i: int, from: int, to: int|
        0 <= i < fields["accept"@].len() && #[trigger] value_offers_html(
            fields["accept"@][i],
            from,
            to,
        ) {
        let (i, from, to) = choose|i: int, from: int, to: int|
            0 <= i < fields["accept"@].len() && #[trigger] value_offers_html(
                fields["accept"@][i],
                from,
                to,
            );
        lemma_offer_is_accepted(values, i, from, to);
    }
}

proof fn lemma_offer_is_accepted(values: Seq<Seq<u8>>, i: int, from: int, to: int)
    requires
        0 <= i < values.len(),
        value_offers_html(values[i], from, to),
    ensures
        accepts_html(values),
{
    let value = values[i];
    let shown = headers::ascii_text(value);
    assert(visible_text(value) == Some(shown));
    assert forall|k: int| from <= k < to implies #[trigger] shown[k] != ',' by {
        assert(shown[k] == value[k] as char);
        assert(value[k] != 0x2c);
        assert(0x20 <= value[k] <= 0x7e || value[k] == 0x9);
    }
    if from > 0 {
        assert(shown[from - 1] == value[from - 1] as char);
    }
    if to < value.len() {
        assert(shown[to] == value[to] as char);
    }
    text::lemma_split_has_piece(shown, ',', from, to);
    let pieces = text::split(shown, ',');
    let j = choose|j: int| 0 <= j < pieces.len() && #[trigger] pieces[j] == shown.subrange(from, to);
    assert(pieces[j] =~= Seq::new((to - from) as nat, |k: int| value[from + k] as char));
    assert(is_accepted_html(text::split(visible_text(values[i])->0, ',')[j]));
}

/// GET and HEAD that list `text/html` in a visible `Accept` field, in any case and
/// without parameters, want the page; where no `Accept` field holds those letters
/// nothing wants it, and neither does any other method.
pub proof fn law_page_is_wanted_when_listed(request: RequestHead, i: int, r: bool)
    requires
        call_ensures(prefers_html_loading, (&request,), r),
    ensures
        ({
            let fields = headers::header_fields(request.headers);
            &&& (request.method@ == "GET"@ || request.method@ == "HEAD"@) && fields.contains_key(
                "accept"@,
            ) && 0 <= i < fields["accept"@].len() && headers::lists_word(
                fields["accept"@][i],
                "text/html"@,
            ) && (forall|k: int|
                0 <= k < fields["accept"@][i].len() ==> 0x20 <= #[trigger] fields["accept"@][i][k]
                    <= 0x7e || fields["accept"@][i][k] == 0x9) ==> r
            &&& request.method@ != "GET"@ && request.method@ != "HEAD"@ ==> !r
            &&& !fields.contains_key("accept"@) ==> !r
            &&& r ==> exists|j: int, start: int|
                0 <= j < fields["accept"@].len() && #[trigger] holds_html(
                    fields["accept"@][j],
                    start,
                )
        }),
{
    law_page_is_wanted_by_accept(request, r);
    let fields = headers::header_fields(request.headers);
    if (request.method@ == "GET"@ || request.method@ == "HEAD"@) && fields.contains_key("accept"@)
        && 0 <= i < fields["accept"@].len() && headers::lists_word(
        fields["accept"@][i],
        "text/html"@,
    ) && (forall|k: int|
        0 <= k < fields["accept"@][i].len() ==> 0x20 <= #[trigger] fields["accept"@][i][k] <= 0x7e
            || fields["accept"@][i][k] == 0x9) {
        lemma_listed_html(fields["accept"@][i]);
    }
    if r {
        let (j, from, to) = choose|j: int, from: int, to: int|
            0 <= j < fields["accept"@].len() && #[trigger] value_offers_html(
                fields["accept"@][j],
                from,
                to,
            );
        let value = fields["accept"@][j];
        let part = Seq::new((to - from) as nat, |k: int| value[from + k] as char);
        let start = lemma_accepted_range_names_html(part);
        reveal_strlit("text/html");
        assert forall|k: int| 0 <= k < 9 implies headers::spells(
            value[from + start + k],
            #[trigger] "text/html"@[k],
        ) by {
            assert(is_letter_of(part[start + k], "text/html"@[k]));
            assert(0x20 <= value[from + start + k] <= 0x7e || value[from + start + k] == 0x9);
        }
        assert(holds_html(value, from + start));
    }
}

/// Whether the letters `text/html` stand at a place in a value, in either case.
pub open spec fn holds_html(value: Seq<u8>, start: int) -> bool {
    &&& 0 <= start
    &&& start + 9 <= value.len()
    &&& forall|k: int| 0 <= k < 9 ==> headers::spells(value[start + k], #[trigger] "text/html"@[k])
}

proof fn lemma_listed_html(value: Seq<u8>)
    requires
        headers::lists_word(value, "text/html"@),
        forall|k: int|
            0 <= k < value.len() ==> 0x20 <= #[trigger] value[k] <= 0x7e || value[k] == 0x9,
    ensures
        exists|from: int, to: int| #[trigger] value_offers_html(value, from, to),
{
    reveal_strlit("text/html");
    let w = "text/html"@;
    let (from, at, to) = choose|from: int, at: int, to: int| #[trigger]
        headers::lists_word_at(value, w, from, at, to);
    let part = Seq::new((to - from) as nat, |k: int| value[from + k] as char);
    assert forall|k: int| from <= k < to implies #[trigger] value[k] != 0x2c by {
        if at <= k < at + 9 {
            assert(headers::spells(value[at + (k - at)], w[k - at]));
        } else {
            assert(headers::is_blank(value[k]));
        }
    }
    assert forall|k: int| 0 <= k < at - from implies is_gap(#[trigger] part[k]) by {
        assert(headers::is_blank(value[from + k]));
        assert(0x20 <= value[from + k] <= 0x7e || value[from + k] == 0x9);
    }
    assert forall|k: int| at - from + 9 <= k < part.len() implies is_gap(#[trigger] part[k]) by {
        assert(headers::is_blank(value[from + k]));
        assert(0x20 <= value[from + k] <= 0x7e || value[from + k] == 0x9);
    }
    assert forall|k: int| 0 <= k < 9 implies is_letter_of(part[at - from + k], #[trigger] w[k]) by {
        assert(headers::spells(value[at + k], w[k]));
    }
    assert(names_html(part, at - from, part.len() as int));
    lemma_names_html(part, at - from, part.len() as int);
    assert(part.take(part.len() as int) =~= part);
    assert(text::split(part, ';').skip(1) =~= Seq::<Seq<char>>::empty());
    assert(is_accepted_html(part));
    assert(value_offers_html(value, from, to));
}

} // verus!
