//! The TOML document that a configuration is written in, and the fields it
//! holds before they are validated.
use core::ops::Range;
use toml::Spanned;
use toml::de::{DeTable, DeValue, ValueDeserializer};
use vstd::prelude::*;

use crate::config;
use crate::text::{self, chars_of, parse_number, push_decimal};

verus! {

/// `toml::de::DeValue`, opaque.
#[verifier::external_type_specification]
#[verifier::external_body]
pub struct ExDeValue<'i>(DeValue<'i>);

/// `toml::de::Error`, opaque.
#[verifier::external_type_specification]
#[verifier::external_body]
pub struct ExTomlError(toml::de::Error);

/// Where something stands in a document, in bytes.
#[derive(Clone, Copy, Debug, PartialEq, Eq, Structural)]
pub struct Span {
    pub start: usize,
    pub end: usize,
}

/// A TOML value, with what is said where it is read as something that it is not:
/// namely as the unit, which no value is.
pub struct Tree {
    pub misread: Seq<char>,
    pub node: Node,
}

/// What a TOML value is. Integers are kept as they are written, with their radix;
/// floats and booleans are not told apart.
pub enum Node {
    Text(Seq<char>),
    Integer(Seq<char>, u32),
    Array(Seq<Item>),
    Table(Seq<Entry>),
    Datetime,
    Other,
}

/// A value and where it stands.
pub struct Item {
    pub at: Span,
    pub value: Tree,
}

/// An entry of a table, and where its name stands.
pub struct Entry {
    pub name: Seq<char>,
    pub name_at: Span,
    pub item: Item,
}

/// What a parsed TOML value holds.
pub uninterp spec fn toml_tree(value: DeValue) -> Tree;

/// What a TOML document holds or, where the text is not one, how the error is
/// shown.
pub uninterp spec fn toml_document(input: Seq<char>) -> Result<Item, Seq<char>>;

/// How a TOML error shows the place in a document that it points at.
pub uninterp spec fn toml_location(input: Seq<char>, start: usize, end: usize) -> Seq<char>;

/// Whether a TOML error is shown as that text, whenever it is shown.
pub open spec fn is_shown_as(error: toml::de::Error, shown: Seq<char>) -> bool {
    forall|text: String| #[trigger]
        vstd::string::to_string_from_display_ensures::<toml::de::Error>(&error, text) ==> text@
            == shown
}

/// One level of a TOML value.
pub enum TomlNode<'a, 'i> {
    Text(String),
    Integer(String, u32),
    Array(Vec<(Range<usize>, &'a DeValue<'i>)>),
    Table(Vec<(String, Range<usize>, Range<usize>, &'a DeValue<'i>)>),
    Datetime,
    Other,
}

/// The span of a range.
pub open spec fn span_of(range: Range<usize>) -> Span {
    Span { start: range.start, end: range.end }
}

/// What one level stands for, with what is below it.
pub open spec fn node_of(node: TomlNode) -> Node {
    match node {
        TomlNode::Text(text) => Node::Text(text@),
        TomlNode::Integer(digits, radix) => Node::Integer(digits@, radix),
        TomlNode::Array(items) => Node::Array(items_of(items@)),
        TomlNode::Table(entries) => Node::Table(entries_of(entries@)),
        TomlNode::Datetime => Node::Datetime,
        TomlNode::Other => Node::Other,
    }
}

pub open spec fn items_of(items: Seq<(Range<usize>, &DeValue)>) -> Seq<Item> {
    items.map_values(
        |item: (Range<usize>, &DeValue)| Item { at: span_of(item.0), value: toml_tree(*item.1) },
    )
}

pub open spec fn entries_of(
    entries: Seq<(String, Range<usize>, Range<usize>, &DeValue)>,
) -> Seq<Entry> {
    entries.map_values(
        |entry: (String, Range<usize>, Range<usize>, &DeValue)|
            Entry {
                name: entry.0@,
                name_at: span_of(entry.1),
                item: Item { at: span_of(entry.2), value: toml_tree(*entry.3) },
            },
    )
}

/// `toml::de::DeTable::parse`. The table of a document and its span come back where
/// the text is TOML, an error where it is not. What the error shows is made from the
/// text alone: its message, and the line that it points at.
#[verifier::external_body]
fn parse_document(input: &str) -> (r: Result<(Range<usize>, DeValue<'_>), toml::de::Error>)
    ensures
        match r {
            Ok((span, value)) => {
                &&& toml_document(input@) == Ok::<_, Seq<char>>(
                    Item { at: span_of(span), value: toml_tree(value) },
                )
                &&& toml_tree(value).node is Table
            },
            Err(error) => toml_document(input@) is Err && is_shown_as(
                error,
                toml_document(input@)->Err_0,
            ),
        },
{
    match DeTable::parse(input) {
        Ok(table) => Ok((table.span(), DeValue::Table(table.into_inner()))),
        Err(error) => Err(error),
    }
}

/// The variants of `toml::de::DeValue`, one level deep. An integer comes with
/// its digits and its radix, what is in an array or a table with its span, and a
/// table with its entries in the order of their names.
#[verifier::external_body]
fn open_value<'a, 'i>(value: &'a DeValue<'i>) -> (node: TomlNode<'a, 'i>)
    ensures
        node_of(node) == toml_tree(*value).node,
{
    match value {
        DeValue::String(text) => TomlNode::Text(text.to_string()),
        DeValue::Integer(n) => TomlNode::Integer(n.as_str().to_owned(), n.radix()),
        DeValue::Array(items) => TomlNode::Array(
            items.iter().map(|v| (v.span(), v.get_ref())).collect(),
        ),
        DeValue::Table(table) => TomlNode::Table(
            table.iter().map(|(k, v)| (k.to_string(), k.span(), v.span(), v.get_ref())).collect(),
        ),
        DeValue::Datetime(_) => TomlNode::Datetime,
        DeValue::Float(_) => TomlNode::Other,
        DeValue::Boolean(_) => TomlNode::Other,
    }
}

/// `serde::Deserialize` of the unit from a `toml::de::ValueDeserializer`, which no
/// TOML value satisfies: what the error says.
#[verifier::external_body]
fn misread_value(value: &DeValue) -> (message: String)
    ensures
        message@ == toml_tree(*value).misread,
{
    let spanned = Spanned::new(0..0, value.clone());
    let read: Result<(), toml::de::Error> = serde::Deserialize::deserialize(
        ValueDeserializer::from(spanned),
    );
    match read {
        Ok(()) => String::new(),
        Err(error) => error.message().to_owned(),
    }
}

/// `toml::de::Error::set_input` and its `Display`, on an error with that span: the
/// text that is shown, and the error's message in it. The text is the place, then the
/// message, then a line feed. What the place looks like is left to the name.
#[verifier::external_body]
fn point_at(input: &str, at: Span) -> (r: (String, String))
    requires
        at.start <= at.end <= vstd::utf8::encode_utf8(input@).len(),
    ensures
        r.0@ == toml_location(input@, at.start, at.end) + r.1@ + "\n"@,
{
    let spanned = Spanned::new(at.start..at.end, DeValue::Boolean(true));
    let read: Result<(), toml::de::Error> = serde::Deserialize::deserialize(
        ValueDeserializer::from(spanned),
    );
    match read {
        Ok(()) => (String::new(), String::new()),
        Err(mut error) => {
            error.set_input(Some(input));
            (error.to_string(), error.message().to_owned())
        },
    }
}

/// A TOML value of the library's own, with the contents of a `Tree`.
pub struct TomlValue {
    pub misread: String,
    pub contents: TomlContents,
}

/// What a `TomlValue` is.
pub enum TomlContents {
    Text(String),
    Integer(String, u32),
    Array(Vec<TomlItem>),
    Table(Vec<TomlEntry>),
    Datetime,
    Other,
}

/// A value and where it stands.
pub struct TomlItem {
    pub at: Span,
    pub value: TomlValue,
}

/// An entry of a table, and where its name stands.
pub struct TomlEntry {
    pub name: String,
    pub name_at: Span,
    pub item: TomlItem,
}

impl TomlValue {
    /// The contents of the value.
    pub open spec fn tree(&self) -> Tree
        decreases self,
    {
        Tree {
            misread: self.misread@,
            node: match self.contents {
                TomlContents::Text(text) => Node::Text(text@),
                TomlContents::Integer(digits, radix) => Node::Integer(digits@, radix),
                TomlContents::Array(items) => Node::Array(
                    Seq::new(
                        items@.len(),
                        |i: int|
                            if 0 <= i < items@.len() {
                                Item { at: items@[i].at, value: items@[i].value.tree() }
                            } else {
                                Item {
                                    at: Span { start: 0, end: 0 },
                                    value: Tree { misread: self.misread@, node: Node::Other },
                                }
                            },
                    ),
                ),
                TomlContents::Table(entries) => Node::Table(
                    Seq::new(
                        entries@.len(),
                        |i: int|
                            if 0 <= i < entries@.len() {
                                Entry {
                                    name: entries@[i].name@,
                                    name_at: entries@[i].name_at,
                                    item: Item {
                                        at: entries@[i].item.at,
                                        value: entries@[i].item.value.tree(),
                                    },
                                }
                            } else {
                                Entry {
                                    name: self.misread@,
                                    name_at: Span { start: 0, end: 0 },
                                    item: Item {
                                        at: Span { start: 0, end: 0 },
                                        value: Tree { misread: self.misread@, node: Node::Other },
                                    },
                                }
                            },
                    ),
                ),
                TomlContents::Datetime => Node::Datetime,
                TomlContents::Other => Node::Other,
            },
        }
    }
}

impl View for TomlItem {
    type V = Item;

    open spec fn view(&self) -> Item {
        Item { at: self.at, value: self.value.tree() }
    }
}

impl View for TomlEntry {
    type V = Entry;

    open spec fn view(&self) -> Entry {
        Entry { name: self.name@, name_at: self.name_at, item: self.item@ }
    }
}

/// The contents of a list of values.
pub open spec fn item_views(items: Seq<TomlItem>) -> Seq<Item> {
    items.map_values(|item: TomlItem| item@)
}

/// The contents of a list of entries.
pub open spec fn entry_views(entries: Seq<TomlEntry>) -> Seq<Entry> {
    entries.map_values(|entry: TomlEntry| entry@)
}

proof fn lemma_tree(value: TomlValue)
    ensures
        value.tree().misread == value.misread@,
        match value.contents {
            TomlContents::Array(items) => value.tree().node == Node::Array(item_views(items@)),
            TomlContents::Table(entries) => value.tree().node == Node::Table(
                entry_views(entries@),
            ),
            _ => true,
        },
{
    match value.contents {
        TomlContents::Array(items) => {
            assert(value.tree().node->Array_0 =~= item_views(items@));
        },
        TomlContents::Table(entries) => {
            assert(value.tree().node->Table_0 =~= entry_views(entries@));
        },
        _ => {},
    }
}

/// The library's own copy of a parsed value.
fn copy_value(value: &DeValue) -> (r: TomlValue)
    ensures
        r.tree() == toml_tree(*value),
    decreases toml_tree(*value),
{
    let ghost tree = toml_tree(*value);
    let misread = misread_value(value);
    let contents = match open_value(value) {
        TomlNode::Text(text) => TomlContents::Text(text),
        TomlNode::Integer(digits, radix) => TomlContents::Integer(digits, radix),
        TomlNode::Array(items) => {
            let mut list: Vec<TomlItem> = Vec::new();
            let ghost below = items_of(items@);
            for i in 0..items.len()
                invariant
                    tree == toml_tree(*value),
                    below == items_of(items@),
                    tree.node == Node::Array(below),
                    item_views(list@) == below.take(i as int),
            {
                let ghost before = list@;
                assert(below[i as int].value == toml_tree(*items@[i as int].1));
                assert(decreases_to!(tree => tree.node));
                assert(decreases_to!(tree.node => tree.node->Array_0));
                assert(decreases_to!(below => below[i as int]));
                assert(decreases_to!(below[i as int] => below[i as int].value));
                let at = Span { start: items[i].0.start, end: items[i].0.end };
                let item = TomlItem { at, value: copy_value(items[i].1) };
                assert(item@ == below[i as int]);
                list.push(item);
                assert(item_views(list@) =~= item_views(before).push(item@));
                assert(below.take(i + 1) =~= below.take(i as int).push(below[i as int]));
            }
            assert(below.take(below.len() as int) =~= below);
            TomlContents::Array(list)
        },
        TomlNode::Table(entries) => {
            let mut list: Vec<TomlEntry> = Vec::new();
            let ghost below = entries_of(entries@);
            for i in 0..entries.len()
                invariant
                    tree == toml_tree(*value),
                    below == entries_of(entries@),
                    tree.node == Node::Table(below),
                    entry_views(list@) == below.take(i as int),
            {
                let ghost before = list@;
                assert(below[i as int].item.value == toml_tree(*entries@[i as int].3));
                assert(decreases_to!(tree => tree.node));
                assert(decreases_to!(tree.node => tree.node->Table_0));
                assert(decreases_to!(below => below[i as int]));
                assert(decreases_to!(below[i as int] => below[i as int].item));
                assert(decreases_to!(below[i as int].item => below[i as int].item.value));
                let name_at = Span { start: entries[i].1.start, end: entries[i].1.end };
                let at = Span { start: entries[i].2.start, end: entries[i].2.end };
                let item = TomlItem { at, value: copy_value(entries[i].3) };
                let entry = TomlEntry { name: entries[i].0.clone(), name_at, item };
                assert(entry@ == below[i as int]);
                list.push(entry);
                assert(entry_views(list@) =~= entry_views(before).push(entry@));
                assert(below.take(i + 1) =~= below.take(i as int).push(below[i as int]));
            }
            assert(below.take(below.len() as int) =~= below);
            TomlContents::Table(list)
        },
        TomlNode::Datetime => TomlContents::Datetime,
        TomlNode::Other => TomlContents::Other,
    };
    let copy = TomlValue { misread, contents };
    proof {
        lemma_tree(copy);
    }
    copy
}

/// A service as it is written, before validation.
#[derive(Debug)]
pub struct RawService {
    pub host: String,
    pub upstream: String,
    pub launchd_label: String,
    pub idle_timeout_seconds: u64,
    pub can_stop_command: Option<Vec<String>>,
}

/// A configuration as it is written, before validation.
#[derive(Debug)]
pub struct RawConfig {
    pub listen: String,
    pub services: Vec<RawService>,
}

/// The contents of a `RawService`.
#[verifier::ext_equal]
pub struct RawServiceView {
    pub host: Seq<char>,
    pub upstream: Seq<char>,
    pub launchd_label: Seq<char>,
    pub idle_timeout_seconds: u64,
    pub can_stop_command: Option<Seq<Seq<char>>>,
}

/// The contents of a `RawConfig`.
#[verifier::ext_equal]
pub struct RawConfigView {
    pub listen: Seq<char>,
    pub services: Seq<RawServiceView>,
}

/// The contents of an optional command.
pub open spec fn command_view(command: Option<Vec<String>>) -> Option<Seq<Seq<char>>> {
    match command {
        Some(command) => Some(text::texts(command@)),
        None => None,
    }
}

/// The contents of a list of services.
pub open spec fn service_views(services: Seq<RawService>) -> Seq<RawServiceView> {
    services.map_values(|service: RawService| service@)
}

impl View for RawService {
    type V = RawServiceView;

    open spec fn view(&self) -> RawServiceView {
        RawServiceView {
            host: self.host@,
            upstream: self.upstream@,
            launchd_label: self.launchd_label@,
            idle_timeout_seconds: self.idle_timeout_seconds,
            can_stop_command: command_view(self.can_stop_command),
        }
    }
}

impl View for RawConfig {
    type V = RawConfigView;

    open spec fn view(&self) -> RawConfigView {
        RawConfigView { listen: self.listen@, services: service_views(self.services@) }
    }
}

/// Why a TOML document is no configuration, and where.
#[derive(Debug)]
pub struct SchemaError {
    pub at: Span,
    pub message: String,
}

/// The contents of a `SchemaError`.
#[verifier::ext_equal]
pub struct SchemaProblem {
    pub at: Span,
    pub message: Seq<char>,
}

impl View for SchemaError {
    type V = SchemaProblem;

    open spec fn view(&self) -> SchemaProblem {
        SchemaProblem { at: self.at, message: self.message@ }
    }
}

/// What is said of a value that is read as something that it is not: what it is, and
/// what was expected in place of the unit. Of a number out of every range only that is
/// said.
pub open spec fn expecting(misread: Seq<char>, expected: Seq<char>) -> Seq<char> {
    if ", expected unit"@.is_suffix_of(misread) {
        misread.take(misread.len() - "unit"@.len()) + expected
    } else {
        misread
    }
}

/// The same of a value of the right type that is out of range.
pub open spec fn out_of_range(message: Seq<char>) -> Seq<char> {
    if "invalid type: "@.is_prefix_of(message) {
        "invalid value: "@ + message.skip("invalid type: "@.len() as int)
    } else {
        message
    }
}

/// What is said of a field that a table does not have.
pub open spec fn unknown_field(name: Seq<char>, expected: Seq<char>) -> Seq<char> {
    "unknown field `"@ + name + "`, expected "@ + expected
}

/// What is said of a field that is not there.
pub open spec fn missing_field(name: Seq<char>) -> Seq<char> {
    "missing field `"@ + name + "`"@
}

/// What is said of an array that is too short for a service.
pub open spec fn too_short(len: nat) -> Seq<char> {
    "invalid length "@ + text::decimal(len) + ", expected struct RawService with 5 elements"@
}

/// The idle timeout of a service that does not name one.
pub const DEFAULT_IDLE_TIMEOUT_SECONDS: u64 = 1_800;

/// The fields of a configuration, as a message lists them.
pub const CONFIG_FIELDS: &'static str = "`listen` or `services`";

/// The fields of a service, as a message lists them.
pub const SERVICE_FIELDS: &'static str = "one of `host`, `upstream`, `launchd_label`, `idle_timeout_seconds`, `can_stop_command`";

/// The field that a date has where a table is expected.
pub const DATETIME_FIELD: &'static str = "$__toml_private_datetime";

/// The names of a table's entries.
pub open spec fn keys(entries: Seq<Entry>) -> Seq<Seq<char>> {
    entries.map_values(|entry: Entry| entry.name)
}

/// The entry of that name.
pub open spec fn entry(entries: Seq<Entry>, name: Seq<char>) -> Option<Item> {
    match text::first_index(keys(entries), name) {
        Some(i) => Some(entries[i].item),
        None => None,
    }
}

/// The first thing that is there.
pub open spec fn first_some<T>(slots: Seq<Option<T>>) -> Option<T>
    decreases slots.len(),
{
    if slots.len() == 0 {
        None
    } else {
        match first_some(slots.drop_last()) {
            Some(item) => Some(item),
            None => slots.last(),
        }
    }
}

/// What is wrong with a field, if anything.
pub open spec fn problem_of<T>(field: Result<T, SchemaProblem>) -> Option<SchemaProblem> {
    match field {
        Ok(_) => None,
        Err(problem) => Some(problem),
    }
}

/// A text.
pub open spec fn text_item(item: Item) -> Result<Seq<char>, SchemaProblem> {
    match item.value.node {
        Node::Text(text) => Ok(text),
        _ => Err(
            SchemaProblem { at: item.at, message: expecting(item.value.misread, "a string"@) },
        ),
    }
}

/// A text that must be there, in a table that stands at `table`.
pub open spec fn text_field(slot: Option<Item>, name: Seq<char>, table: Span) -> Result<
    Seq<char>,
    SchemaProblem,
> {
    match slot {
        None => Err(SchemaProblem { at: table, message: missing_field(name) }),
        Some(item) => text_item(item),
    }
}

/// A written integer as an unsigned number of 64 bits, where it is one.
pub open spec fn unsigned_integer(digits: Seq<char>, radix: u32) -> Option<int> {
    if !(2 <= radix <= 16) {
        None
    } else if digits.len() > 0 && digits[0] == '-' {
        text::number(digits.skip(1), radix as int, 0)
    } else if digits.len() > 0 && digits[0] == '+' {
        text::number(digits.skip(1), radix as int, u64::MAX as int)
    } else {
        text::number(digits, radix as int, u64::MAX as int)
    }
}

/// Whether a written integer is a negative number of 64 bits.
pub open spec fn is_negative_integer(digits: Seq<char>, radix: u32) -> bool {
    &&& 2 <= radix <= 16
    &&& digits.len() > 0
    &&& digits[0] == '-'
    &&& text::number(digits.skip(1), radix as int, 0x8000_0000_0000_0000) is Some
}

/// The idle timeout, or the default where there is none.
pub open spec fn idle_timeout_field(slot: Option<Item>) -> Result<u64, SchemaProblem> {
    match slot {
        None => Ok(DEFAULT_IDLE_TIMEOUT_SECONDS),
        Some(item) => {
            let message = expecting(item.value.misread, "u64"@);
            match item.value.node {
                Node::Integer(digits, radix) => match unsigned_integer(digits, radix) {
                    Some(n) => Ok(n as u64),
                    None => Err(
                        SchemaProblem {
                            at: item.at,
                            message: if is_negative_integer(digits, radix) {
                                out_of_range(message)
                            } else {
                                message
                            },
                        },
                    ),
                },
                _ => Err(SchemaProblem { at: item.at, message }),
            }
        },
    }
}

/// The texts of an array, or the problem of the first item that is none.
pub open spec fn texts_of_items(items: Seq<Item>) -> Result<Seq<Seq<char>>, SchemaProblem>
    decreases items.len(),
{
    if items.len() == 0 {
        Ok(Seq::<Seq<char>>::empty())
    } else {
        match texts_of_items(items.drop_last()) {
            Err(problem) => Err(problem),
            Ok(front) => match text_item(items.last()) {
                Err(problem) => Err(problem),
                Ok(text) => Ok(front.push(text)),
            },
        }
    }
}

/// The stop check, where there is one.
pub open spec fn command_field(slot: Option<Item>) -> Result<
    Option<Seq<Seq<char>>>,
    SchemaProblem,
> {
    match slot {
        None => Ok(None),
        Some(item) => match item.value.node {
            Node::Array(items) => match texts_of_items(items) {
                Ok(texts) => Ok(Some(texts)),
                Err(problem) => Err(problem),
            },
            _ => Err(
                SchemaProblem {
                    at: item.at,
                    message: expecting(item.value.misread, "a sequence"@),
                },
            ),
        },
    }
}

/// A service from its five fields, in a table that stands at `table`.
pub open spec fn service_from_fields(
    host: Option<Item>,
    upstream: Option<Item>,
    launchd_label: Option<Item>,
    idle_timeout_seconds: Option<Item>,
    can_stop_command: Option<Item>,
    table: Span,
) -> Result<RawServiceView, SchemaProblem> {
    match text_field(host, "host"@, table) {
        Err(problem) => Err(problem),
        Ok(host) => match text_field(upstream, "upstream"@, table) {
            Err(problem) => Err(problem),
            Ok(upstream) => match text_field(launchd_label, "launchd_label"@, table) {
                Err(problem) => Err(problem),
                Ok(launchd_label) => match idle_timeout_field(idle_timeout_seconds) {
                    Err(problem) => Err(problem),
                    Ok(idle_timeout_seconds) => match command_field(can_stop_command) {
                        Err(problem) => Err(problem),
                        Ok(can_stop_command) => Ok(
                            RawServiceView {
                                host,
                                upstream,
                                launchd_label,
                                idle_timeout_seconds,
                                can_stop_command,
                            },
                        ),
                    },
                },
            },
        },
    }
}

/// The fields that a service may have.
pub open spec fn service_field_names() -> Seq<Seq<char>> {
    seq![
        "host"@,
        "upstream"@,
        "launchd_label"@,
        "idle_timeout_seconds"@,
        "can_stop_command"@,
    ]
}

/// What is wrong with one field of a service, if anything.
pub open spec fn service_field_problem(name: Seq<char>, name_at: Span, item: Item) -> Option<
    SchemaProblem,
> {
    if name == "host"@ || name == "upstream"@ || name == "launchd_label"@ {
        problem_of(text_item(item))
    } else if name == "idle_timeout_seconds"@ {
        problem_of(idle_timeout_field(Some(item)))
    } else if name == "can_stop_command"@ {
        problem_of(command_field(Some(item)))
    } else {
        Some(SchemaProblem { at: name_at, message: unknown_field(name, SERVICE_FIELDS@) })
    }
}

/// What is wrong with the entries of a service, one by one.
pub open spec fn service_problems(entries: Seq<Entry>) -> Seq<Option<SchemaProblem>> {
    entries.map_values(
        |entry: Entry| service_field_problem(entry.name, entry.name_at, entry.item),
    )
}

/// What is wrong with the items of an array that are the fields of a service in their
/// order, one by one; items beyond the fifth are passed over.
pub open spec fn service_item_problems(items: Seq<Item>) -> Seq<Option<SchemaProblem>> {
    Seq::new(
        if items.len() < 5 {
            items.len()
        } else {
            5
        },
        |i: int| service_field_problem(service_field_names()[i], items[i].at, items[i]),
    )
}

/// A service: a table of the known fields, or an array of all five in order. The
/// first entry that is not in order is reported; what is missing only after that. An
/// array may end before its fourth item, which has a default, but not before its
/// fifth.
pub open spec fn service_from_item(item: Item) -> Result<RawServiceView, SchemaProblem> {
    match item.value.node {
        Node::Table(entries) => match first_some(service_problems(entries)) {
            Some(problem) => Err(problem),
            None => service_from_fields(
                entry(entries, "host"@),
                entry(entries, "upstream"@),
                entry(entries, "launchd_label"@),
                entry(entries, "idle_timeout_seconds"@),
                entry(entries, "can_stop_command"@),
                item.at,
            ),
        },
        Node::Array(items) => match first_some(service_item_problems(items)) {
            Some(problem) => Err(problem),
            None => if items.len() < 5 {
                Err(
                    SchemaProblem {
                        at: item.at,
                        message: too_short(
                            if items.len() < 3 {
                                items.len()
                            } else {
                                4
                            },
                        ),
                    },
                )
            } else {
                service_from_fields(
                    Some(items[0]),
                    Some(items[1]),
                    Some(items[2]),
                    Some(items[3]),
                    Some(items[4]),
                    item.at,
                )
            },
        },
        Node::Datetime => Err(
            SchemaProblem {
                at: item.at,
                message: unknown_field(DATETIME_FIELD@, SERVICE_FIELDS@),
            },
        ),
        _ => Err(
            SchemaProblem {
                at: item.at,
                message: expecting(item.value.misread, "struct RawService"@),
            },
        ),
    }
}

/// All services of an array, or the problem of the first that is none.
pub open spec fn services_from_items(items: Seq<Item>) -> Result<
    Seq<RawServiceView>,
    SchemaProblem,
>
    decreases items.len(),
{
    if items.len() == 0 {
        Ok(Seq::<RawServiceView>::empty())
    } else {
        match services_from_items(items.drop_last()) {
            Err(problem) => Err(problem),
            Ok(front) => match service_from_item(items.last()) {
                Err(problem) => Err(problem),
                Ok(service) => Ok(front.push(service)),
            },
        }
    }
}

/// The services, which must be there, in a table that stands at `table`.
pub open spec fn services_field(slot: Option<Item>, table: Span) -> Result<
    Seq<RawServiceView>,
    SchemaProblem,
> {
    match slot {
        None => Err(SchemaProblem { at: table, message: missing_field("services"@) }),
        Some(item) => match item.value.node {
            Node::Array(items) => services_from_items(items),
            _ => Err(
                SchemaProblem {
                    at: item.at,
                    message: expecting(item.value.misread, "a sequence"@),
                },
            ),
        },
    }
}

/// What is wrong with one entry of a configuration, if anything.
pub open spec fn config_entry_problem(entry: Entry) -> Option<SchemaProblem> {
    if entry.name == "listen"@ {
        problem_of(text_item(entry.item))
    } else if entry.name == "services"@ {
        problem_of(services_field(Some(entry.item), entry.item.at))
    } else {
        Some(
            SchemaProblem {
                at: entry.name_at,
                message: unknown_field(entry.name, CONFIG_FIELDS@),
            },
        )
    }
}

/// What is wrong with the entries of a configuration, one by one.
pub open spec fn config_problems(entries: Seq<Entry>) -> Seq<Option<SchemaProblem>> {
    entries.map_values(|entry: Entry| config_entry_problem(entry))
}

/// A configuration: a table of the two known fields. The first entry that is not
/// in order is reported; what is missing only after that.
pub open spec fn config_from_item(item: Item) -> Result<RawConfigView, SchemaProblem> {
    match item.value.node {
        Node::Table(entries) => match first_some(config_problems(entries)) {
            Some(problem) => Err(problem),
            None => match text_field(entry(entries, "listen"@), "listen"@, item.at) {
                Err(problem) => Err(problem),
                Ok(listen) => match services_field(entry(entries, "services"@), item.at) {
                    Err(problem) => Err(problem),
                    Ok(services) => Ok(RawConfigView { listen, services }),
                },
            },
        },
        _ => Err(
            SchemaProblem {
                at: item.at,
                message: expecting(item.value.misread, "struct RawConfig"@),
            },
        ),
    }
}

/// How a problem is shown: the place in the document, then what is wrong. A place
/// that is not in the document is not shown.
pub open spec fn shown(input: Seq<char>, problem: SchemaProblem) -> Seq<char> {
    if problem.at.start <= problem.at.end && problem.at.end <= vstd::utf8::encode_utf8(
        input,
    ).len() {
        toml_location(input, problem.at.start, problem.at.end) + problem.message + "\n"@
    } else {
        problem.message + "\n"@
    }
}

/// What a lookup found.
pub open spec fn slot_view(slot: Option<&TomlItem>) -> Option<Item> {
    match slot {
        Some(item) => Some(item@),
        None => None,
    }
}

/// What an error stands for, where there is one.
pub open spec fn problem_view(error: Option<SchemaError>) -> Option<SchemaProblem> {
    match error {
        Some(error) => Some(error@),
        None => None,
    }
}

fn has_prefix(chars: &[char], prefix: &str) -> (r: bool)
    ensures
        r == prefix@.is_prefix_of(chars@),
{
    let expected = chars_of(prefix);
    if chars.len() < expected.len() {
        return false;
    }
    for i in 0..expected.len()
        invariant
            expected@ == prefix@,
            expected@.len() <= chars@.len(),
            forall|j: int| 0 <= j < i ==> chars@[j] == expected@[j],
    {
        if chars[i] != expected[i] {
            assert(chars@.take(expected@.len() as int)[i as int] != expected@[i as int]);
            return false;
        }
    }
    assert(prefix@ =~= chars@.take(prefix@.len() as int));
    true
}

fn has_suffix(chars: &[char], suffix: &str) -> (r: bool)
    ensures
        r == suffix@.is_suffix_of(chars@),
{
    let expected = chars_of(suffix);
    if chars.len() < expected.len() {
        return false;
    }
    let count = chars.len();
    let start = count - expected.len();
    let ghost tail = chars@.subrange(start as int, chars@.len() as int);
    for i in 0..expected.len()
        invariant
            expected@ == suffix@,
            count == chars@.len(),
            start == count - expected@.len(),
            tail == chars@.subrange(start as int, chars@.len() as int),
            forall|j: int| 0 <= j < i ==> tail[j] == expected@[j],
    {
        if chars[start + i] != expected[i] {
            assert(tail[i as int] != expected@[i as int]);
            return false;
        }
    }
    assert(suffix@ =~= tail);
    true
}

fn expecting_text(misread: &str, expected: &str) -> (message: String)
    ensures
        message@ == expecting(misread@, expected@),
{
    let chars = chars_of(misread);
    if !has_suffix(&chars, ", expected unit") {
        return misread.to_owned();
    }
    proof {
        reveal_strlit(", expected unit");
        reveal_strlit("unit");
    }
    let end = chars.len() - 4;
    let kept = vstd::slice::slice_subrange(chars.as_slice(), 0, end);
    assert(kept@ =~= misread@.take(misread@.len() - 4));
    let mut message = text::text_of(kept);
    message.push_str(expected);
    message
}

fn out_of_range_text(message: String) -> (r: String)
    ensures
        r@ == out_of_range(message@),
{
    let chars = chars_of(message.as_str());
    if !has_prefix(&chars, "invalid type: ") {
        return message;
    }
    proof {
        reveal_strlit("invalid type: ");
    }
    let rest = vstd::slice::slice_subrange(chars.as_slice(), 14, chars.len());
    assert(rest@ =~= message@.skip(14));
    let mut r = "invalid value: ".to_owned();
    r.push_str(text::text_of(rest).as_str());
    r
}

fn unknown_field_text(name: &str, expected: &str) -> (message: String)
    ensures
        message@ == unknown_field(name@, expected@),
{
    let mut message = "unknown field `".to_owned();
    message.push_str(name);
    message.push_str("`, expected ");
    message.push_str(expected);
    message
}

fn missing_field_text(name: &str) -> (message: String)
    ensures
        message@ == missing_field(name@),
{
    let mut message = "missing field `".to_owned();
    message.push_str(name);
    message.push_str("`");
    message
}

fn misread_item(item: &TomlItem, expected: &str) -> (error: SchemaError)
    ensures
        error@ == (SchemaProblem {
            at: item.at,
            message: expecting(item@.value.misread, expected@),
        }),
{
    proof {
        lemma_tree(item.value);
    }
    SchemaError {
        at: item.at,
        message: expecting_text(item.value.misread.as_str(), expected),
    }
}

fn find_entry<'a>(entries: &'a Vec<TomlEntry>, name: &str) -> (r: Option<&'a TomlItem>)
    ensures
        slot_view(r) == entry(entry_views(entries@), name@),
{
    let ghost names = keys(entry_views(entries@));
    proof {
        text::lemma_first_index(names, name@);
    }
    for i in 0..entries.len()
        invariant
            names == keys(entry_views(entries@)),
            forall|j: int| 0 <= j < i ==> names[j] != name@,
    {
        assert(names[i as int] == entries@[i as int].name@);
        if *entries[i].name.as_str() == *name {
            proof {
                text::lemma_first_index_unique(names, name@, i as int);
            }
            return Some(&entries[i].item);
        }
    }
    None
}

proof fn lemma_first_some_stays<T>(slots: Seq<Option<T>>, n: int)
    requires
        0 <= n <= slots.len(),
        first_some(slots.take(n)) is Some,
    ensures
        first_some(slots) == first_some(slots.take(n)),
    decreases slots.len(),
{
    if n == slots.len() {
        assert(slots.take(n) =~= slots);
    } else {
        assert(slots.drop_last().take(n) =~= slots.take(n));
        lemma_first_some_stays(slots.drop_last(), n);
    }
}

fn decode_text_item(item: &TomlItem) -> (r: Result<String, SchemaError>)
    ensures
        match r {
            Ok(text) => text_item(item@) == Ok::<_, SchemaProblem>(text@),
            Err(error) => text_item(item@) == Err::<Seq<char>, _>(error@),
        },
{
    match &item.value.contents {
        TomlContents::Text(text) => Ok(text.clone()),
        _ => Err(misread_item(item, "a string")),
    }
}

fn decode_text(slot: Option<&TomlItem>, name: &str, table: Span) -> (r: Result<String, SchemaError>)
    ensures
        match r {
            Ok(text) => text_field(slot_view(slot), name@, table) == Ok::<_, SchemaProblem>(text@),
            Err(error) => text_field(slot_view(slot), name@, table) == Err::<Seq<char>, _>(error@),
        },
{
    match slot {
        None => Err(SchemaError { at: table, message: missing_field_text(name) }),
        Some(item) => decode_text_item(item),
    }
}

fn decode_unsigned(digits: &str, radix: u32) -> (r: Option<u64>)
    ensures
        match r {
            Some(n) => unsigned_integer(digits@, radix) == Some(n as int),
            None => unsigned_integer(digits@, radix) is None,
        },
{
    if radix < 2 || radix > 16 {
        return None;
    }
    let chars = chars_of(digits);
    if chars.len() > 0 && (chars[0] == '-' || chars[0] == '+') {
        let unsigned = vstd::slice::slice_subrange(chars.as_slice(), 1, chars.len());
        assert(unsigned@ =~= digits@.skip(1));
        let max: u64 = if chars[0] == '-' {
            0
        } else {
            u64::MAX
        };
        parse_number(unsigned, radix as u8, max)
    } else {
        parse_number(&chars, radix as u8, u64::MAX)
    }
}

fn integer_is_negative(digits: &str, radix: u32) -> (r: bool)
    ensures
        r == is_negative_integer(digits@, radix),
{
    if radix < 2 || radix > 16 {
        return false;
    }
    let chars = chars_of(digits);
    if chars.len() == 0 || chars[0] != '-' {
        return false;
    }
    let unsigned = vstd::slice::slice_subrange(chars.as_slice(), 1, chars.len());
    assert(unsigned@ =~= digits@.skip(1));
    parse_number(unsigned, radix as u8, 0x8000_0000_0000_0000).is_some()
}

fn decode_idle_timeout(slot: Option<&TomlItem>) -> (r: Result<u64, SchemaError>)
    ensures
        match r {
            Ok(n) => idle_timeout_field(slot_view(slot)) == Ok::<_, SchemaProblem>(n),
            Err(error) => idle_timeout_field(slot_view(slot)) == Err::<u64, _>(error@),
        },
{
    match slot {
        None => Ok(DEFAULT_IDLE_TIMEOUT_SECONDS),
        Some(item) => {
            let wrong = misread_item(item, "u64");
            match &item.value.contents {
                TomlContents::Integer(digits, radix) => match decode_unsigned(
                    digits.as_str(),
                    *radix,
                ) {
                    Some(n) => Ok(n),
                    None => if integer_is_negative(digits.as_str(), *radix) {
                        Err(SchemaError { at: wrong.at, message: out_of_range_text(wrong.message) })
                    } else {
                        Err(wrong)
                    },
                },
                _ => Err(wrong),
            }
        },
    }
}

proof fn lemma_texts_problem_stays(items: Seq<Item>, n: int)
    requires
        0 <= n <= items.len(),
        texts_of_items(items.take(n)) is Err,
    ensures
        texts_of_items(items) == texts_of_items(items.take(n)),
    decreases items.len(),
{
    if n == items.len() {
        assert(items.take(n) =~= items);
    } else {
        assert(items.drop_last().take(n) =~= items.take(n));
        lemma_texts_problem_stays(items.drop_last(), n);
    }
}

fn decode_texts(items: &Vec<TomlItem>) -> (r: Result<Vec<String>, SchemaError>)
    ensures
        match r {
            Ok(list) => texts_of_items(item_views(items@)) == Ok::<_, SchemaProblem>(
                text::texts(list@),
            ),
            Err(error) => texts_of_items(item_views(items@)) == Err::<Seq<Seq<char>>, _>(error@),
        },
{
    let ghost all = item_views(items@);
    let mut list: Vec<String> = Vec::new();
    assert(text::texts(list@) =~= Seq::<Seq<char>>::empty());
    for i in 0..items.len()
        invariant
            all == item_views(items@),
            texts_of_items(all.take(i as int)) == Ok::<_, SchemaProblem>(text::texts(list@)),
    {
        assert(all.take(i + 1).drop_last() =~= all.take(i as int));
        assert(all.take(i + 1).last() == items@[i as int]@);
        match decode_text_item(&items[i]) {
            Ok(text) => {
                let ghost before = list@;
                list.push(text);
                assert(text::texts(list@) =~= text::texts(before).push(text@));
            },
            Err(error) => {
                proof {
                    lemma_texts_problem_stays(all, i + 1);
                }
                return Err(error);
            },
        }
    }
    assert(all.take(all.len() as int) =~= all);
    Ok(list)
}

fn decode_command(slot: Option<&TomlItem>) -> (r: Result<Option<Vec<String>>, SchemaError>)
    ensures
        match r {
            Ok(command) => command_field(slot_view(slot)) == Ok::<_, SchemaProblem>(
                command_view(command),
            ),
            Err(error) => command_field(slot_view(slot)) == Err::<Option<Seq<Seq<char>>>, _>(
                error@,
            ),
        },
{
    match slot {
        None => Ok(None),
        Some(item) => {
            proof {
                lemma_tree(item.value);
            }
            match &item.value.contents {
                TomlContents::Array(items) => match decode_texts(items) {
                    Ok(list) => Ok(Some(list)),
                    Err(error) => Err(error),
                },
                _ => Err(misread_item(item, "a sequence")),
            }
        },
    }
}

fn decode_service_fields(
    host: Option<&TomlItem>,
    upstream: Option<&TomlItem>,
    launchd_label: Option<&TomlItem>,
    idle_timeout_seconds: Option<&TomlItem>,
    can_stop_command: Option<&TomlItem>,
    table: Span,
) -> (r: Result<RawService, SchemaError>)
    ensures
        ({
            let expected = service_from_fields(
                slot_view(host),
                slot_view(upstream),
                slot_view(launchd_label),
                slot_view(idle_timeout_seconds),
                slot_view(can_stop_command),
                table,
            );
            match r {
                Ok(service) => expected == Ok::<_, SchemaProblem>(service@),
                Err(error) => expected == Err::<RawServiceView, _>(error@),
            }
        }),
{
    let host = match decode_text(host, "host", table) {
        Ok(host) => host,
        Err(error) => {
            return Err(error);
        },
    };
    let upstream = match decode_text(upstream, "upstream", table) {
        Ok(upstream) => upstream,
        Err(error) => {
            return Err(error);
        },
    };
    let launchd_label = match decode_text(launchd_label, "launchd_label", table) {
        Ok(launchd_label) => launchd_label,
        Err(error) => {
            return Err(error);
        },
    };
    let idle_timeout_seconds: u64 = match decode_idle_timeout(idle_timeout_seconds) {
        Ok(seconds) => seconds,
        Err(error) => {
            return Err(error);
        },
    };
    match decode_command(can_stop_command) {
        Ok(can_stop_command) => Ok(
            RawService { host, upstream, launchd_label, idle_timeout_seconds, can_stop_command },
        ),
        Err(error) => Err(error),
    }
}

fn problem_in_service_field(name: &str, name_at: Span, item: &TomlItem) -> (r: Option<SchemaError>)
    ensures
        problem_view(r) == service_field_problem(name@, name_at, item@),
{
    if *name == *"host" || *name == *"upstream" || *name == *"launchd_label" {
        match decode_text_item(item) {
            Ok(_) => None,
            Err(error) => Some(error),
        }
    } else if *name == *"idle_timeout_seconds" {
        match decode_idle_timeout(Some(item)) {
            Ok(_) => None,
            Err(error) => Some(error),
        }
    } else if *name == *"can_stop_command" {
        match decode_command(Some(item)) {
            Ok(_) => None,
            Err(error) => Some(error),
        }
    } else {
        Some(SchemaError { at: name_at, message: unknown_field_text(name, SERVICE_FIELDS) })
    }
}

fn find_problem_in_service(entries: &Vec<TomlEntry>) -> (r: Option<SchemaError>)
    ensures
        problem_view(r) == first_some(service_problems(entry_views(entries@))),
{
    let ghost all = service_problems(entry_views(entries@));
    for i in 0..entries.len()
        invariant
            all == service_problems(entry_views(entries@)),
            first_some(all.take(i as int)) is None,
    {
        assert(all.take(i + 1).drop_last() =~= all.take(i as int));
        let problem = problem_in_service_field(
            entries[i].name.as_str(),
            entries[i].name_at,
            &entries[i].item,
        );
        assert(all[i as int] == problem_view(problem));
        if problem.is_some() {
            proof {
                lemma_first_some_stays(all, i + 1);
            }
            return problem;
        }
    }
    assert(all.take(all.len() as int) =~= all);
    None
}

fn find_problem_in_items(items: &Vec<TomlItem>, names: &[&str; 5]) -> (r: Option<SchemaError>)
    requires
        names@.map_values(|name: &str| name@) == service_field_names(),
    ensures
        problem_view(r) == first_some(service_item_problems(item_views(items@))),
{
    let ghost all = service_item_problems(item_views(items@));
    let count = if items.len() < 5 {
        items.len()
    } else {
        5
    };
    for i in 0..count
        invariant
            count <= 5,
            count <= items@.len(),
            count == all.len(),
            all == service_item_problems(item_views(items@)),
            names@.map_values(|name: &str| name@) == service_field_names(),
            first_some(all.take(i as int)) is None,
    {
        assert(all.take(i + 1).drop_last() =~= all.take(i as int));
        let problem = problem_in_service_field(names[i], items[i].at, &items[i]);
        assert(names@.map_values(|name: &str| name@)[i as int] == names@[i as int]@);
        assert(item_views(items@)[i as int] == items@[i as int]@);
        assert(all[i as int] == problem_view(problem));
        if problem.is_some() {
            proof {
                lemma_first_some_stays(all, i + 1);
            }
            return problem;
        }
    }
    assert(all.take(all.len() as int) =~= all);
    None
}

fn too_short_text(len: usize) -> (message: String)
    ensures
        message@ == too_short(len as nat),
{
    let mut message = "invalid length ".to_owned();
    push_decimal(&mut message, len as u64);
    message.push_str(", expected struct RawService with 5 elements");
    message
}

fn decode_service(item: &TomlItem) -> (r: Result<RawService, SchemaError>)
    ensures
        match r {
            Ok(service) => service_from_item(item@) == Ok::<_, SchemaProblem>(service@),
            Err(error) => service_from_item(item@) == Err::<RawServiceView, _>(error@),
        },
{
    proof {
        lemma_tree(item.value);
    }
    match &item.value.contents {
        TomlContents::Table(entries) => match find_problem_in_service(entries) {
            Some(error) => Err(error),
            None => decode_service_fields(
                find_entry(entries, "host"),
                find_entry(entries, "upstream"),
                find_entry(entries, "launchd_label"),
                find_entry(entries, "idle_timeout_seconds"),
                find_entry(entries, "can_stop_command"),
                item.at,
            ),
        },
        TomlContents::Array(items) => {
            let names = [
                "host",
                "upstream",
                "launchd_label",
                "idle_timeout_seconds",
                "can_stop_command",
            ];
            assert(names@.map_values(|name: &str| name@) =~= service_field_names());
            match find_problem_in_items(items, &names) {
                Some(error) => Err(error),
                None => if items.len() < 5 {
                    let read: usize = if items.len() < 3 {
                        items.len()
                    } else {
                        4
                    };
                    Err(SchemaError { at: item.at, message: too_short_text(read) })
                } else {
                    decode_service_fields(
                        Some(&items[0]),
                        Some(&items[1]),
                        Some(&items[2]),
                        Some(&items[3]),
                        Some(&items[4]),
                        item.at,
                    )
                },
            }
        },
        TomlContents::Datetime => Err(
            SchemaError {
                at: item.at,
                message: unknown_field_text(DATETIME_FIELD, SERVICE_FIELDS),
            },
        ),
        _ => Err(misread_item(item, "struct RawService")),
    }
}

proof fn lemma_services_problem_stays(items: Seq<Item>, n: int)
    requires
        0 <= n <= items.len(),
        services_from_items(items.take(n)) is Err,
    ensures
        services_from_items(items) == services_from_items(items.take(n)),
    decreases items.len(),
{
    if n == items.len() {
        assert(items.take(n) =~= items);
    } else {
        assert(items.drop_last().take(n) =~= items.take(n));
        lemma_services_problem_stays(items.drop_last(), n);
    }
}

fn decode_services(items: &Vec<TomlItem>) -> (r: Result<Vec<RawService>, SchemaError>)
    ensures
        match r {
            Ok(list) => services_from_items(item_views(items@)) == Ok::<_, SchemaProblem>(
                service_views(list@),
            ),
            Err(error) => services_from_items(item_views(items@)) == Err::<Seq<RawServiceView>, _>(
                error@,
            ),
        },
{
    let ghost all = item_views(items@);
    let mut list: Vec<RawService> = Vec::new();
    assert(service_views(list@) =~= Seq::<RawServiceView>::empty());
    for i in 0..items.len()
        invariant
            all == item_views(items@),
            services_from_items(all.take(i as int)) == Ok::<_, SchemaProblem>(
                service_views(list@),
            ),
    {
        assert(all.take(i + 1).drop_last() =~= all.take(i as int));
        assert(all.take(i + 1).last() == items@[i as int]@);
        match decode_service(&items[i]) {
            Ok(service) => {
                let ghost before = list@;
                list.push(service);
                assert(service_views(list@) =~= service_views(before).push(service@));
            },
            Err(error) => {
                proof {
                    lemma_services_problem_stays(all, i + 1);
                }
                return Err(error);
            },
        }
    }
    assert(all.take(all.len() as int) =~= all);
    Ok(list)
}

fn decode_services_field(slot: Option<&TomlItem>, table: Span) -> (r: Result<
    Vec<RawService>,
    SchemaError,
>)
    ensures
        match r {
            Ok(list) => services_field(slot_view(slot), table) == Ok::<_, SchemaProblem>(
                service_views(list@),
            ),
            Err(error) => services_field(slot_view(slot), table) == Err::<Seq<RawServiceView>, _>(
                error@,
            ),
        },
{
    match slot {
        None => Err(SchemaError { at: table, message: missing_field_text("services") }),
        Some(item) => {
            proof {
                lemma_tree(item.value);
            }
            match &item.value.contents {
                TomlContents::Array(items) => decode_services(items),
                _ => Err(misread_item(item, "a sequence")),
            }
        },
    }
}

fn problem_in_config_entry(entry: &TomlEntry) -> (r: Option<SchemaError>)
    ensures
        problem_view(r) == config_entry_problem(entry@),
{
    if *entry.name.as_str() == *"listen" {
        match decode_text_item(&entry.item) {
            Ok(_) => None,
            Err(error) => Some(error),
        }
    } else if *entry.name.as_str() == *"services" {
        match decode_services_field(Some(&entry.item), entry.item.at) {
            Ok(_) => None,
            Err(error) => Some(error),
        }
    } else {
        Some(
            SchemaError {
                at: entry.name_at,
                message: unknown_field_text(entry.name.as_str(), CONFIG_FIELDS),
            },
        )
    }
}

/// The fields of a configuration, from a parsed document.
pub fn decode_config(root: &TomlItem) -> (r: Result<RawConfig, SchemaError>)
    ensures
        match r {
            Ok(config) => config_from_item(root@) == Ok::<_, SchemaProblem>(config@),
            Err(error) => config_from_item(root@) == Err::<RawConfigView, _>(error@),
        },
{
    proof {
        lemma_tree(root.value);
    }
    let entries = match &root.value.contents {
        TomlContents::Table(entries) => entries,
        _ => {
            return Err(misread_item(root, "struct RawConfig"));
        },
    };
    let ghost all = config_problems(entry_views(entries@));
    for i in 0..entries.len()
        invariant
            root@.value.node == Node::Table(entry_views(entries@)),
            all == config_problems(entry_views(entries@)),
            first_some(all.take(i as int)) is None,
    {
        assert(all.take(i + 1).drop_last() =~= all.take(i as int));
        let problem = problem_in_config_entry(&entries[i]);
        assert(all[i as int] == problem_view(problem));
        if let Some(error) = problem {
            proof {
                lemma_first_some_stays(all, i + 1);
            }
            return Err(error);
        }
    }
    assert(all.take(all.len() as int) =~= all);
    let listen = match decode_text(find_entry(entries, "listen"), "listen", root.at) {
        Ok(listen) => listen,
        Err(error) => {
            return Err(error);
        },
    };
    match decode_services_field(find_entry(entries, "services"), root.at) {
        Ok(services) => Ok(RawConfig { listen, services }),
        Err(error) => Err(error),
    }
}

/// How a problem of a document is shown.
fn show(input: &str, error: &SchemaError) -> (text: String)
    ensures
        text@ == shown(input@, error@),
{
    let mut text = String::new();
    if error.at.start <= error.at.end && error.at.end <= input.as_bytes().len() {
        let (located, message) = point_at(input, error.at);
        let chars = chars_of(located.as_str());
        let tail = chars_of(message.as_str()).len();
        proof {
            reveal_strlit("\n");
        }
        let place = vstd::slice::slice_subrange(chars.as_slice(), 0, chars.len() - tail - 1);
        assert(place@ =~= toml_location(input@, error.at.start, error.at.end));
        text = text::text_of(place);
    }
    text.push_str(error.message.as_str());
    text.push_str("\n");
    assert(text@ =~= shown(input@, error@));
    text
}

/// Why a text is not read as a configuration.
#[derive(Debug)]
pub enum DocumentError {
    /// The text is not TOML.
    Syntax(toml::de::Error),
    /// The document does not hold the fields of a configuration; with the text that
    /// is shown for it.
    Schema(SchemaError, String),
}

/// The fields of a configuration, read from a TOML text.
pub fn read_document(input: &str) -> (r: Result<RawConfig, DocumentError>)
    ensures
        match r {
            Ok(raw) => toml_document(input@) is Ok && config_from_item(toml_document(input@)->Ok_0)
                == Ok::<_, SchemaProblem>(raw@),
            Err(DocumentError::Syntax(error)) => toml_document(input@) is Err && is_shown_as(
                error,
                toml_document(input@)->Err_0,
            ),
            Err(DocumentError::Schema(error, text)) => {
                &&& toml_document(input@) is Ok
                &&& config_from_item(toml_document(input@)->Ok_0) == Err::<RawConfigView, _>(
                    error@,
                )
                &&& text@ == shown(input@, error@)
            },
        },
{
    match parse_document(input) {
        Err(error) => Err(DocumentError::Syntax(error)),
        Ok((span, value)) => {
            let at = Span { start: span.start, end: span.end };
            let root = TomlItem { at, value: copy_value(&value) };
            match decode_config(&root) {
                Ok(raw) => Ok(raw),
                Err(error) => {
                    let text = show(input, &error);
                    Err(DocumentError::Schema(error, text))
                },
            }
        },
    }
}

/// A service of the starter configuration.
pub open spec fn starter_service_view(
    host: Seq<char>,
    upstream: Seq<char>,
    label: Seq<char>,
) -> RawServiceView {
    RawServiceView {
        host,
        upstream,
        launchd_label: label,
        idle_timeout_seconds: DEFAULT_IDLE_TIMEOUT_SECONDS,
        can_stop_command: Some(seq!["/usr/bin/true"@]),
    }
}

/// The starter configuration.
pub open spec fn starter_view() -> RawConfigView {
    RawConfigView {
        listen: "127.0.0.1:8080"@,
        services: seq![
            starter_service_view("first.apps.home.arpa"@, "127.0.0.1:9001"@, "net.example.first"@),
            starter_service_view(
                "second.apps.home.arpa"@,
                "127.0.0.1:9002"@,
                "net.example.second"@,
            ),
        ],
    }
}

fn starter_service(host: &str, upstream: &str, label: &str) -> (service: RawService)
    ensures
        service@ == starter_service_view(host@, upstream@, label@),
{
    let command = vec!["/usr/bin/true".to_owned()];
    assert(text::texts(command@) =~= seq!["/usr/bin/true"@]);
    RawService {
        host: host.to_owned(),
        upstream: upstream.to_owned(),
        launchd_label: label.to_owned(),
        idle_timeout_seconds: DEFAULT_IDLE_TIMEOUT_SECONDS,
        can_stop_command: Some(command),
    }
}

impl RawConfig {
    /// What a new configuration starts from: two services, with every field
    /// written out. It passes validation as it is.
    pub fn starter() -> (raw: RawConfig)
        ensures
            raw@ == starter_view(),
            config::checked_config(raw@) is Ok,
    {
        let services = vec![
            starter_service("first.apps.home.arpa", "127.0.0.1:9001", "net.example.first"),
            starter_service("second.apps.home.arpa", "127.0.0.1:9002", "net.example.second"),
        ];
        let raw = RawConfig { listen: "127.0.0.1:8080".to_owned(), services };
        assert(raw@.services =~= starter_view().services);
        proof {
            config::lemma_starter_is_valid();
        }
        raw
    }
}

proof fn lemma_first_some_none<T>(slots: Seq<Option<T>>)
    requires
        forall|i: int| 0 <= i < slots.len() ==> #[trigger] slots[i] is None,
    ensures
        first_some(slots) is None,
    decreases slots.len(),
{
    if slots.len() > 0 {
        let front = slots.drop_last();
        assert forall|i: int| 0 <= i < front.len() implies #[trigger] front[i] is None by {
            assert(slots[i] is None);
        }
        lemma_first_some_none(front);
        assert(slots[slots.len() - 1] is None);
    }
}

proof fn lemma_first_some_found<T>(slots: Seq<Option<T>>, i: int)
    requires
        0 <= i < slots.len(),
        slots[i] is Some,
    ensures
        first_some(slots) is Some,
    decreases slots.len(),
{
    if i < slots.len() - 1 {
        assert(slots.drop_last()[i] == slots[i]);
        lemma_first_some_found(slots.drop_last(), i);
    }
}

/// Whether no two entries have a name in common.
pub open spec fn names_differ(entries: Seq<Entry>) -> bool {
    forall|i: int, j: int|
        0 <= i < j < entries.len() ==> (#[trigger] entries[i]).name != (#[trigger] entries[j]).name
}

proof fn lemma_entry_at(entries: Seq<Entry>, i: int)
    requires
        names_differ(entries),
        0 <= i < entries.len(),
    ensures
        entry(entries, entries[i].name) == Some(entries[i].item),
{
    let names = keys(entries);
    assert(names[i] == entries[i].name);
    assert forall|j: int| 0 <= j < i implies names[j] != entries[i].name by {
        assert(names[j] == entries[j].name);
    }
    text::lemma_first_index_unique(names, entries[i].name, i);
}

proof fn lemma_no_entry(entries: Seq<Entry>, name: Seq<char>)
    requires
        forall|i: int| 0 <= i < entries.len() ==> (#[trigger] entries[i]).name != name,
    ensures
        entry(entries, name) is None,
{
    let names = keys(entries);
    text::lemma_first_index(names, name);
    if let Some(i) = text::first_index(names, name) {
        assert(names[i] == entries[i].name);
    }
}

/// Whether an item is an array of texts, those of a command in their order.
pub open spec fn is_text_array(item: Item, command: Seq<Seq<char>>) -> bool {
    item.value.node matches Node::Array(items) && items.len() == command.len() && forall|k: int|
        0 <= k < items.len() ==> (#[trigger] items[k]).value.node == Node::Text(command[k])
}

/// Whether an item is the number, written in digits of its radix with one plus sign
/// before them at most.
pub open spec fn is_written_integer(item: Item, n: u64) -> bool {
    &&& item.value.node matches Node::Integer(digits, radix)
    &&& 2 <= radix <= 16
    &&& text::number(digits, radix as int, u64::MAX as int) == Some(n as int) || digits.len() > 0
        && digits[0] == '+' && text::number(digits.skip(1), radix as int, u64::MAX as int) == Some(
        n as int,
    )
}

/// Whether a table is a service: its host, upstream and label are there as texts, its
/// idle time, where it is there, as a number, and its check, where it is there, as an
/// array of texts; no other name is there, and none twice. An idle time that is not there
/// is half an hour.
pub open spec fn is_service_table(fields: Seq<Entry>, service: RawServiceView) -> bool {
    &&& names_differ(fields)
    &&& forall|i: int|
        0 <= i < fields.len() ==> {
            ||| (#[trigger] fields[i]).name == "host"@ && fields[i].item.value.node == Node::Text(
                service.host,
            )
            ||| fields[i].name == "upstream"@ && fields[i].item.value.node == Node::Text(
                service.upstream,
            )
            ||| fields[i].name == "launchd_label"@ && fields[i].item.value.node == Node::Text(
                service.launchd_label,
            )
            ||| fields[i].name == "idle_timeout_seconds"@ && is_written_integer(
                fields[i].item,
                service.idle_timeout_seconds,
            )
            ||| fields[i].name == "can_stop_command"@ && service.can_stop_command is Some
                && is_text_array(fields[i].item, service.can_stop_command->0)
        }
    &&& has_name(fields, "host"@)
    &&& has_name(fields, "upstream"@)
    &&& has_name(fields, "launchd_label"@)
    &&& has_name(fields, "idle_timeout_seconds"@) || service.idle_timeout_seconds == 1_800
    &&& has_name(fields, "can_stop_command"@) || service.can_stop_command is None
}

/// Whether an entry has the name.
pub open spec fn has_name(entries: Seq<Entry>, name: Seq<char>) -> bool {
    exists|i: int| 0 <= i < entries.len() && (#[trigger] entries[i]).name == name
}

proof fn lemma_field_names_differ()
    ensures
        "host"@ != "upstream"@,
        "host"@ != "launchd_label"@,
        "host"@ != "idle_timeout_seconds"@,
        "host"@ != "can_stop_command"@,
        "upstream"@ != "launchd_label"@,
        "upstream"@ != "idle_timeout_seconds"@,
        "upstream"@ != "can_stop_command"@,
        "launchd_label"@ != "idle_timeout_seconds"@,
        "launchd_label"@ != "can_stop_command"@,
        "idle_timeout_seconds"@ != "can_stop_command"@,
        "listen"@ != "services"@,
{
    reveal_strlit("host");
    reveal_strlit("upstream");
    reveal_strlit("launchd_label");
    reveal_strlit("idle_timeout_seconds");
    reveal_strlit("can_stop_command");
    reveal_strlit("listen");
    reveal_strlit("services");
    assert("host"@.len() == 4 && "upstream"@.len() == 8 && "launchd_label"@.len() == 13
        && "idle_timeout_seconds"@.len() == 20 && "can_stop_command"@.len() == 16
        && "listen"@.len() == 6 && "services"@.len() == 8);
}

proof fn lemma_text_array(items: Seq<Item>, command: Seq<Seq<char>>)
    requires
        items.len() == command.len(),
        forall|k: int|
            0 <= k < items.len() ==> (#[trigger] items[k]).value.node == Node::Text(command[k]),
    ensures
        texts_of_items(items) == Ok::<_, SchemaProblem>(command),
    decreases items.len(),
{
    if items.len() == 0 {
        assert(command =~= Seq::<Seq<char>>::empty());
    } else {
        let front = items.drop_last();
        assert forall|k: int| 0 <= k < front.len() implies (#[trigger] front[k]).value.node
            == Node::Text(command.drop_last()[k]) by {
            assert(front[k] == items[k]);
        }
        lemma_text_array(front, command.drop_last());
        assert(items[items.len() - 1].value.node == Node::Text(command[command.len() - 1]));
        assert(command.drop_last().push(command.last()) =~= command);
    }
}

proof fn lemma_written_integer(item: Item, n: u64)
    requires
        is_written_integer(item, n),
    ensures
        idle_timeout_field(Some(item)) == Ok::<_, SchemaProblem>(n),
{
    let digits = item.value.node->Integer_0;
    let radix = item.value.node->Integer_1 as int;
    if text::number(digits, radix, u64::MAX as int) is Some {
        assert(text::digit_value(digits[0]) < radix);
    }
}

/// What a field of a service table is found to be.
proof fn lemma_service_slot(fields: Seq<Entry>, service: RawServiceView, name: Seq<char>)
    requires
        is_service_table(fields, service),
    ensures
        has_name(fields, name) <==> entry(fields, name) is Some,
        name == "host"@ && has_name(fields, name) ==> entry(fields, name)->0.value.node
            == Node::Text(service.host),
        name == "upstream"@ && has_name(fields, name) ==> entry(fields, name)->0.value.node
            == Node::Text(service.upstream),
        name == "launchd_label"@ && has_name(fields, name) ==> entry(fields, name)->0.value.node
            == Node::Text(service.launchd_label),
        name == "idle_timeout_seconds"@ && has_name(fields, name) ==> is_written_integer(
            entry(fields, name)->0,
            service.idle_timeout_seconds,
        ),
        name == "can_stop_command"@ && has_name(fields, name) ==> service.can_stop_command is Some
            && is_text_array(entry(fields, name)->0, service.can_stop_command->0),
{
    lemma_field_names_differ();
    if has_name(fields, name) {
        let i = choose|i: int| 0 <= i < fields.len() && (#[trigger] fields[i]).name == name;
        lemma_entry_at(fields, i);
    } else {
        lemma_no_entry(fields, name);
    }
}

proof fn lemma_service_table(item: Item, fields: Seq<Entry>, service: RawServiceView)
    requires
        item.value.node == Node::Table(fields),
        is_service_table(fields, service),
    ensures
        service_from_item(item) == Ok::<_, SchemaProblem>(service),
{
    lemma_field_names_differ();
    let problems = service_problems(fields);
    assert forall|i: int| 0 <= i < problems.len() implies #[trigger] problems[i] is None by {
        let field = fields[i];
        assert(problems[i] == service_field_problem(field.name, field.name_at, field.item));
        if field.name == "can_stop_command"@ {
            lemma_text_array(
                field.item.value.node->Array_0,
                service.can_stop_command->0,
            );
        }
        if field.name == "idle_timeout_seconds"@ {
            lemma_written_integer(field.item, service.idle_timeout_seconds);
        }
    }
    lemma_first_some_none(problems);
    lemma_service_slot(fields, service, "host"@);
    lemma_service_slot(fields, service, "upstream"@);
    lemma_service_slot(fields, service, "launchd_label"@);
    lemma_service_slot(fields, service, "idle_timeout_seconds"@);
    lemma_service_slot(fields, service, "can_stop_command"@);
    if has_name(fields, "idle_timeout_seconds"@) {
        lemma_written_integer(
            entry(fields, "idle_timeout_seconds"@)->0,
            service.idle_timeout_seconds,
        );
    }
    if has_name(fields, "can_stop_command"@) {
        lemma_text_array(
            entry(fields, "can_stop_command"@)->0.value.node->Array_0,
            service.can_stop_command->0,
        );
    }
}

proof fn lemma_service_tables(items: Seq<Item>, services: Seq<RawServiceView>)
    requires
        items.len() == services.len(),
        forall|k: int|
            0 <= k < items.len() ==> (#[trigger] items[k]).value.node is Table && is_service_table(
                items[k].value.node->Table_0,
                services[k],
            ),
    ensures
        services_from_items(items) == Ok::<_, SchemaProblem>(services),
    decreases items.len(),
{
    if items.len() == 0 {
        assert(services =~= Seq::<RawServiceView>::empty());
    } else {
        let front = items.drop_last();
        assert forall|k: int| 0 <= k < front.len() implies (#[trigger] front[k]).value.node is Table
            && is_service_table(front[k].value.node->Table_0, services.drop_last()[k]) by {
            assert(front[k] == items[k]);
        }
        lemma_service_tables(front, services.drop_last());
        let last = items[items.len() - 1];
        lemma_service_table(last, last.value.node->Table_0, services[services.len() - 1]);
        assert(services.drop_last().push(services.last()) =~= services);
    }
}

/// A document with a listener that is a text, and with services that are an array of
/// service tables, in either order, is read as it is written: the listener, and the
/// services in their order.
pub proof fn law_document_is_read_as_written(
    root: TomlItem,
    r: Result<RawConfig, SchemaError>,
    entries: Seq<Entry>,
    l: int,
    s: int,
    listen: Seq<char>,
    items: Seq<Item>,
    services: Seq<RawServiceView>,
)
    requires
        call_ensures(decode_config, (&root,), r),
        root@.value.node == Node::Table(entries),
        entries.len() == 2,
        l == 0 && s == 1 || l == 1 && s == 0,
        entries[l].name == "listen"@,
        entries[l].item.value.node == Node::Text(listen),
        entries[s].name == "services"@,
        entries[s].item.value.node == Node::Array(items),
        items.len() == services.len(),
        forall|k: int|
            0 <= k < items.len() ==> (#[trigger] items[k]).value.node is Table && is_service_table(
                items[k].value.node->Table_0,
                services[k],
            ),
    ensures
        r is Ok,
        r->Ok_0.listen@ == listen,
        r->Ok_0.services@.len() == services.len(),
        forall|k: int|
            0 <= k < services.len() ==> (#[trigger] r->Ok_0.services@[k])@ == services[k],
{
    lemma_field_names_differ();
    lemma_service_tables(items, services);
    assert(names_differ(entries));
    lemma_entry_at(entries, l);
    lemma_entry_at(entries, s);
    let problems = config_problems(entries);
    assert forall|i: int| 0 <= i < problems.len() implies #[trigger] problems[i] is None by {
        assert(problems[i] == config_entry_problem(entries[i]));
    }
    lemma_first_some_none(problems);
    let raw = r->Ok_0;
    assert(raw@.services == services);
    assert forall|k: int| 0 <= k < services.len() implies (#[trigger] raw.services@[k])@
        == services[k] by {
        assert(raw@.services[k] == raw.services@[k]@);
    }
}

/// A document is refused that is no table, has a name other than the two, lacks one of
/// them, or has a listener that is no text or services that are no array.
pub proof fn law_other_documents_are_refused(
    root: TomlItem,
    r: Result<RawConfig, SchemaError>,
    entries: Seq<Entry>,
    i: int,
)
    requires
        call_ensures(decode_config, (&root,), r),
    ensures
        root@.value.node !is Table ==> r is Err,
        root@.value.node == Node::Table(entries) && 0 <= i < entries.len() && entries[i].name
            != "listen"@ && entries[i].name != "services"@ ==> r is Err,
        root@.value.node == Node::Table(entries) && !has_name(entries, "listen"@) ==> r is Err,
        root@.value.node == Node::Table(entries) && !has_name(entries, "services"@) ==> r is Err,
        root@.value.node == Node::Table(entries) && 0 <= i < entries.len() && entries[i].name
            == "listen"@ && entries[i].item.value.node !is Text ==> r is Err,
        root@.value.node == Node::Table(entries) && 0 <= i < entries.len() && entries[i].name
            == "services"@ && entries[i].item.value.node !is Array ==> r is Err,
{
    lemma_field_names_differ();
    if root@.value.node == Node::Table(entries) {
        let problems = config_problems(entries);
        if 0 <= i < entries.len() {
            assert(problems[i] == config_entry_problem(entries[i]));
            if problems[i] is Some {
                lemma_first_some_found(problems, i);
            }
        }
        if !has_name(entries, "listen"@) {
            lemma_no_entry(entries, "listen"@);
        }
        if !has_name(entries, "services"@) {
            lemma_no_entry(entries, "services"@);
        }
    }
}

/// One service that is not in order refuses the document: one with an unknown name,
/// without a host, upstream or label, with one of them no text, with an idle time that
/// is no number, or with a check that is no array of texts.
pub proof fn law_other_services_are_refused(
    root: TomlItem,
    r: Result<RawConfig, SchemaError>,
    entries: Seq<Entry>,
    s: int,
    items: Seq<Item>,
    k: int,
    fields: Seq<Entry>,
    i: int,
)
    requires
        call_ensures(decode_config, (&root,), r),
        root@.value.node == Node::Table(entries),
        0 <= s < entries.len(),
        entries[s].name == "services"@,
        entries[s].item.value.node == Node::Array(items),
        0 <= k < items.len(),
        items[k].value.node == Node::Table(fields),
        !has_name(fields, "host"@) || !has_name(fields, "upstream"@) || !has_name(
            fields,
            "launchd_label"@,
        ) || 0 <= i < fields.len() && {
            let name = fields[i].name;
            let node = fields[i].item.value.node;
            ||| name != "host"@ && name != "upstream"@ && name != "launchd_label"@ && name
                != "idle_timeout_seconds"@ && name != "can_stop_command"@
            ||| (name == "host"@ || name == "upstream"@ || name == "launchd_label"@) && node !is Text
            ||| name == "idle_timeout_seconds"@ && node !is Integer
            ||| name == "can_stop_command"@ && node !is Array
        },
    ensures
        r is Err,
{
    lemma_field_names_differ();
    let problems = service_problems(fields);
    if 0 <= i < fields.len() {
        let field = fields[i];
        assert(problems[i] == service_field_problem(field.name, field.name_at, field.item));
        if problems[i] is Some {
            lemma_first_some_found(problems, i);
        }
    }
    if !has_name(fields, "host"@) {
        lemma_no_entry(fields, "host"@);
    }
    if !has_name(fields, "upstream"@) {
        lemma_no_entry(fields, "upstream"@);
    }
    if !has_name(fields, "launchd_label"@) {
        lemma_no_entry(fields, "launchd_label"@);
    }
    assert(service_from_item(items[k]) is Err);
    let upto = items.take(k + 1);
    assert(upto.last() == items[k]);
    assert(services_from_items(upto) is Err);
    lemma_services_problem_stays(items, k + 1);
    let all = config_problems(entries);
    assert(all[s] == config_entry_problem(entries[s]));
    assert(all[s] is Some);
    lemma_first_some_found(all, s);
}

/// A new configuration starts from two services, which pass as they are.
pub proof fn law_starter_is_accepted(raw: RawConfig, r: Result<config::Config, config::ConfigError>)
    requires
        call_ensures(RawConfig::starter, (), raw),
        call_ensures(config::Config::from_raw, (raw,), r),
    ensures
        r is Ok,
        raw.listen@ == "127.0.0.1:8080"@,
        raw.services@.len() == 2,
        raw.services@[0].host@ == "first.apps.home.arpa"@,
        raw.services@[0].upstream@ == "127.0.0.1:9001"@,
        raw.services@[0].launchd_label@ == "net.example.first"@,
        raw.services@[0].idle_timeout_seconds == 1_800,
        raw.services@[1].host@ == "second.apps.home.arpa"@,
        raw.services@[1].upstream@ == "127.0.0.1:9002"@,
        raw.services@[1].launchd_label@ == "net.example.second"@,
        raw.services@[1].idle_timeout_seconds == 1_800,
{
    assert(raw@.services.len() == raw.services@.len());
    assert(raw@.services[0] == raw.services@[0]@);
    assert(raw@.services[1] == raw.services@[1]@);
}

} // verus!
