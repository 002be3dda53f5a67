//! Property lists as XML.
use vstd::prelude::*;

use crate::text::{self, chars_of, push_decimal};

verus! {

/// A property list.
pub enum PropertyListValue<'a> {
    Dictionary(Vec<(&'a str, PropertyListValue<'a>)>),
    Array(Vec<PropertyListValue<'a>>),
    Text(&'a str),
    Bool(bool),
    Integer(u64),
}

/// How a character is written in XML text.
pub open spec fn escaped_char(c: char) -> Seq<char> {
    if c == '&' {
        "&amp;"@
    } else if c == '<' {
        "&lt;"@
    } else if c == '>' {
        "&gt;"@
    } else if c == '"' {
        "&quot;"@
    } else if c == '\'' {
        "&apos;"@
    } else {
        seq![c]
    }
}

/// A text as it is written in XML.
pub open spec fn escaped(s: Seq<char>) -> Seq<char>
    decreases s.len(),
{
    if s.len() == 0 {
        s
    } else {
        escaped(s.drop_last()) + escaped_char(s.last())
    }
}

/// Two spaces for each level.
pub open spec fn indentation_text(depth: nat) -> Seq<char>
    decreases depth,
{
    if depth == 0 {
        Seq::<char>::empty()
    } else {
        indentation_text((depth - 1) as nat) + "  "@
    }
}

/// The contents of a property list.
pub enum Plist {
    Dictionary(Seq<(Seq<char>, Plist)>),
    Array(Seq<Plist>),
    Text(Seq<char>),
    Bool(bool),
    Integer(nat),
}

/// The XML elements of a property list at some depth.
pub open spec fn xml(value: Plist, depth: nat) -> Seq<char>
    decreases value,
{
    match value {
        Plist::Dictionary(entries) => indentation_text(depth) + "<dict>\n"@ + entries_xml(
            entries,
            depth + 1,
        ) + indentation_text(depth) + "</dict>\n"@,
        Plist::Array(values) => indentation_text(depth) + "<array>\n"@ + values_xml(
            values,
            depth + 1,
        ) + indentation_text(depth) + "</array>\n"@,
        Plist::Text(text) => indentation_text(depth) + "<string>"@ + escaped(text)
            + "</string>\n"@,
        Plist::Bool(b) => indentation_text(depth) + (if b {
            "<true/>\n"@
        } else {
            "<false/>\n"@
        }),
        Plist::Integer(n) => indentation_text(depth) + "<integer>"@ + text::decimal(n)
            + "</integer>\n"@,
    }
}

/// The keys and values of a dictionary.
pub open spec fn entries_xml(entries: Seq<(Seq<char>, Plist)>, depth: nat) -> Seq<char>
    decreases entries,
{
    if entries.len() == 0 {
        Seq::<char>::empty()
    } else {
        entries_xml(entries.drop_last(), depth) + (indentation_text(depth) + "<key>"@ + escaped(
            entries.last().0,
        ) + "</key>\n"@ + xml(entries.last().1, depth))
    }
}

/// The values of an array.
pub open spec fn values_xml(values: Seq<Plist>, depth: nat) -> Seq<char>
    decreases values,
{
    if values.len() == 0 {
        Seq::<char>::empty()
    } else {
        values_xml(values.drop_last(), depth) + xml(values.last(), depth)
    }
}

/// The contents of a list of values.
pub open spec fn plists(values: Seq<PropertyListValue>) -> Seq<Plist> {
    values.map_values(|value: PropertyListValue| value.plist())
}

/// The contents of a list of keys and values.
pub open spec fn plist_entries(entries: Seq<(&str, PropertyListValue)>) -> Seq<
    (Seq<char>, Plist),
> {
    entries.map_values(|entry: (&str, PropertyListValue)| (entry.0@, entry.1.plist()))
}

/// A list of values has the contents that its values have.
pub proof fn lemma_plist(value: PropertyListValue)
    ensures
        match value {
            PropertyListValue::Dictionary(entries) => value.plist() == Plist::Dictionary(
                plist_entries(entries@),
            ),
            PropertyListValue::Array(values) => value.plist() == Plist::Array(plists(values@)),
            _ => true,
        },
{
    match value {
        PropertyListValue::Dictionary(entries) => {
            assert(value.plist()->Dictionary_0 =~= plist_entries(entries@));
        },
        PropertyListValue::Array(values) => {
            assert(value.plist()->Array_0 =~= plists(values@));
        },
        _ => {},
    }
}

/// Appends two spaces for each level.
fn write_indentation(output: &mut String, indentation: usize)
    ensures
        final(output)@ == old(output)@ + indentation_text(indentation as nat),
{
    let ghost before = output@;
    assert(before =~= before + indentation_text(0));
    for i in 0..indentation
        invariant
            output@ == before + indentation_text(i as nat),
    {
        output.push_str("  ");
        assert(output@ =~= before + indentation_text((i + 1) as nat));
    }
}

/// Appends a text with the characters of XML markup escaped.
pub fn write_escaped_xml(output: &mut String, value: &str)
    ensures
        final(output)@ == old(output)@ + escaped(value@),
{
    let chars = chars_of(value);
    let ghost before = output@;
    assert(before =~= before + escaped(value@.take(0)));
    for i in 0..chars.len()
        invariant
            chars@ == value@,
            output@ == before + escaped(value@.take(i as int)),
    {
        let c = chars[i];
        let ghost held = output@;
        if c == '&' {
            output.push_str("&amp;");
        } else if c == '<' {
            output.push_str("&lt;");
        } else if c == '>' {
            output.push_str("&gt;");
        } else if c == '"' {
            output.push_str("&quot;");
        } else if c == '\'' {
            output.push_str("&apos;");
        } else {
            output.push(c);
        }
        assert(output@ =~= held + escaped_char(c));
        assert(value@.take(i + 1).drop_last() =~= value@.take(i as int));
        assert(output@ =~= before + escaped(value@.take(i + 1)));
    }
    assert(value@.take(value@.len() as int) =~= value@);
}

/// Whether a value nests no deeper than so many levels.
pub open spec fn nests_within(value: PropertyListValue, levels: nat) -> bool
    decreases value,
{
    match value {
        PropertyListValue::Dictionary(entries) => levels > 0 && forall|i: int|
            0 <= i < entries@.len() ==> nests_within(
                (#[trigger] entries@[i]).1,
                (levels - 1) as nat,
            ),
        PropertyListValue::Array(values) => levels > 0 && forall|i: int|
            0 <= i < values@.len() ==> nests_within(#[trigger] values@[i], (levels - 1) as nat),
        _ => true,
    }
}

impl<'a> PropertyListValue<'a> {
    /// The contents of the value.
    pub open spec fn plist(&self) -> Plist
        decreases self,
    {
        match self {
            PropertyListValue::Dictionary(entries) => Plist::Dictionary(
                Seq::new(
                    entries@.len(),
                    |i: int|
                        if 0 <= i < entries@.len() {
                            (entries@[i].0@, entries@[i].1.plist())
                        } else {
                            (Seq::<char>::empty(), Plist::Bool(false))
                        },
                ),
            ),
            PropertyListValue::Array(values) => Plist::Array(
                Seq::new(
                    values@.len(),
                    |i: int|
                        if 0 <= i < values@.len() {
                            values@[i].plist()
                        } else {
                            Plist::Bool(false)
                        },
                ),
            ),
            PropertyListValue::Text(text) => Plist::Text(text@),
            PropertyListValue::Bool(b) => Plist::Bool(*b),
            PropertyListValue::Integer(n) => Plist::Integer(*n as nat),
        }
    }

    /// Appends the XML elements of the value.
    pub fn write_xml(&self, output: &mut String, indentation: usize)
        requires
            nests_within(*self, (usize::MAX - indentation) as nat),
        ensures
            final(output)@ == old(output)@ + xml(self.plist(), indentation as nat),
        decreases self,
    {
        let ghost start = output@;
        let ghost depth = indentation as nat;
        proof {
            lemma_plist(*self);
        }
        write_indentation(output, indentation);
        match self {
            PropertyListValue::Dictionary(entries) => {
                output.push_str("<dict>\n");
                let ghost opened = output@;
                let ghost all = plist_entries(entries@);
                assert(opened =~= opened + entries_xml(all.take(0), depth + 1));
                for i in 0..entries.len()
                    invariant
                        *self == PropertyListValue::Dictionary(*entries),
                        all == plist_entries(entries@),
                        depth == indentation,
                        nests_within(*self, (usize::MAX - indentation) as nat),
                        output@ == opened + entries_xml(all.take(i as int), depth + 1),
                {
                    let ghost held = output@;
                    let ghost upto = all.take(i + 1);
                    assert(upto.drop_last() =~= all.take(i as int));
                    assert(upto.last() == (entries@[i as int].0@, entries@[i as int].1.plist()));
                    assert(decreases_to!(*self => self->Dictionary_0));
                    assert(decreases_to!(self->Dictionary_0 => self->Dictionary_0@));
                    assert(nests_within(entries@[i as int].1, (usize::MAX - indentation - 1) as nat)) by {
                        let levels = (usize::MAX - indentation) as nat;
                        assert(nests_within(*self, levels));
                        assert(nests_within(entries@[i as int].1, (levels - 1) as nat));
                    }
                    assert(decreases_to!(entries@ => entries@[i as int]));
                    assert(decreases_to!(entries@[i as int] => entries@[i as int].1));
                    write_indentation(output, indentation + 1);
                    output.push_str("<key>");
                    write_escaped_xml(output, entries[i].0);
                    output.push_str("</key>\n");
                    entries[i].1.write_xml(output, indentation + 1);
                    assert(output@ =~= opened + entries_xml(upto, depth + 1));
                }
                assert(all.take(all.len() as int) =~= all);
                write_indentation(output, indentation);
                output.push_str("</dict>\n");
            },
            PropertyListValue::Array(values) => {
                output.push_str("<array>\n");
                let ghost opened = output@;
                let ghost all = plists(values@);
                assert(opened =~= opened + values_xml(all.take(0), depth + 1));
                for i in 0..values.len()
                    invariant
                        *self == PropertyListValue::Array(*values),
                        all == plists(values@),
                        depth == indentation,
                        nests_within(*self, (usize::MAX - indentation) as nat),
                        output@ == opened + values_xml(all.take(i as int), depth + 1),
                {
                    let ghost upto = all.take(i + 1);
                    assert(upto.drop_last() =~= all.take(i as int));
                    assert(upto.last() == values@[i as int].plist());
                    assert(decreases_to!(*self => self->Array_0));
                    assert(decreases_to!(self->Array_0 => self->Array_0@));
                    assert(nests_within(values@[i as int], (usize::MAX - indentation - 1) as nat)) by {
                        let levels = (usize::MAX - indentation) as nat;
                        assert(nests_within(*self, levels));
                        assert(nests_within(values@[i as int], (levels - 1) as nat));
                    }
                    assert(decreases_to!(values@ => values@[i as int]));
                    values[i].write_xml(output, indentation + 1);
                    assert(output@ =~= opened + values_xml(upto, depth + 1));
                }
                assert(all.take(all.len() as int) =~= all);
                write_indentation(output, indentation);
                output.push_str("</array>\n");
            },
            PropertyListValue::Text(text) => {
                output.push_str("<string>");
                write_escaped_xml(output, text);
                output.push_str("</string>\n");
            },
            PropertyListValue::Bool(b) => {
                output.push_str(
                    if *b {
                        "<true/>\n"
                    } else {
                        "<false/>\n"
                    },
                );
            },
            PropertyListValue::Integer(n) => {
                output.push_str("<integer>");
                push_decimal(output, *n);
                output.push_str("</integer>\n");
            },
        }
        assert(output@ =~= start + xml(self.plist(), depth));
    }
}

/// What an XML reader makes of escaped text: each of the five entities stands
/// for its character, every other character for itself.
pub open spec fn unescaped(s: Seq<char>) -> Seq<char>
    decreases s.len(),
{
    if s.len() == 0 {
        s
    } else if s[0] != '&' {
        seq![s[0]] + unescaped(s.skip(1))
    } else if s.len() >= 5 && "&amp;"@.is_prefix_of(s) {
        seq!['&'] + unescaped(s.skip(5))
    } else if s.len() >= 4 && "&lt;"@.is_prefix_of(s) {
        seq!['<'] + unescaped(s.skip(4))
    } else if s.len() >= 4 && "&gt;"@.is_prefix_of(s) {
        seq!['>'] + unescaped(s.skip(4))
    } else if s.len() >= 6 && "&quot;"@.is_prefix_of(s) {
        seq!['"'] + unescaped(s.skip(6))
    } else if s.len() >= 6 && "&apos;"@.is_prefix_of(s) {
        seq!['\''] + unescaped(s.skip(6))
    } else {
        s
    }
}

proof fn lemma_escaped_front(s: Seq<char>)
    requires
        s.len() > 0,
    ensures
        escaped(s) == escaped_char(s[0]) + escaped(s.skip(1)),
    decreases s.len(),
{
    if s.len() == 1 {
        assert(s.drop_last() =~= Seq::<char>::empty());
        assert(s.skip(1) =~= Seq::<char>::empty());
        assert(escaped(s) =~= escaped_char(s[0]) + escaped(s.skip(1)));
    } else {
        lemma_escaped_front(s.drop_last());
        assert(s.drop_last().skip(1) =~= s.skip(1).drop_last());
        assert(escaped(s) =~= escaped_char(s[0]) + escaped(s.skip(1)));
    }
}

proof fn lemma_unescaped_front(c: char, rest: Seq<char>)
    ensures
        unescaped(escaped_char(c) + rest) == seq![c] + unescaped(rest),
{
    reveal_strlit("&amp;");
    reveal_strlit("&lt;");
    reveal_strlit("&gt;");
    reveal_strlit("&quot;");
    reveal_strlit("&apos;");
    let s = escaped_char(c) + rest;
    assert(s.skip(escaped_char(c).len() as int) =~= rest);
    assert(escaped_char(c).is_prefix_of(s));
    if c == '<' {
        assert(s[1] != "&amp;"@[1]);
        assert(!"&amp;"@.is_prefix_of(s));
    } else if c == '>' {
        assert(s[1] != "&amp;"@[1] && s[1] != "&lt;"@[1]);
        assert(!"&amp;"@.is_prefix_of(s) && !"&lt;"@.is_prefix_of(s));
    } else if c == '"' {
        assert(s[1] != "&amp;"@[1] && s[1] != "&lt;"@[1] && s[1] != "&gt;"@[1]);
        assert(!"&amp;"@.is_prefix_of(s) && !"&lt;"@.is_prefix_of(s) && !"&gt;"@.is_prefix_of(s));
    } else if c == '\'' {
        assert(s[2] != "&amp;"@[2] && s[1] != "&lt;"@[1] && s[1] != "&gt;"@[1] && s[1]
            != "&quot;"@[1]);
        assert(!"&amp;"@.is_prefix_of(s) && !"&lt;"@.is_prefix_of(s) && !"&gt;"@.is_prefix_of(s)
            && !"&quot;"@.is_prefix_of(s));
    }
}

/// Reading escaped text gives the text back.
pub proof fn law_escaping_is_undone_by_reading(s: Seq<char>)
    ensures
        unescaped(escaped(s)) == s,
    decreases s.len(),
{
    if s.len() > 0 {
        lemma_escaped_front(s);
        law_escaping_is_undone_by_reading(s.skip(1));
        lemma_unescaped_front(s[0], escaped(s.skip(1)));
        assert(s =~= seq![s[0]] + s.skip(1));
    }
}

/// Escaped text holds no character of XML markup but the ampersands of its
/// entities.
pub proof fn law_escaped_text_holds_no_markup(s: Seq<char>)
    ensures
        forall|i: int|
            0 <= i < escaped(s).len() ==> {
                let c = #[trigger] escaped(s)[i];
                c != '<' && c != '>' && c != '"' && c != '\''
            },
    decreases s.len(),
{
    if s.len() > 0 {
        law_escaped_text_holds_no_markup(s.drop_last());
        reveal_strlit("&amp;");
        reveal_strlit("&lt;");
        reveal_strlit("&gt;");
        reveal_strlit("&quot;");
        reveal_strlit("&apos;");
        let front = escaped(s.drop_last());
        assert forall|i: int| 0 <= i < escaped(s).len() implies {
            let c = #[trigger] escaped(s)[i];
            c != '<' && c != '>' && c != '"' && c != '\''
        } by {
            if i < front.len() {
                assert(escaped(s)[i] == front[i]);
            } else {
                assert(escaped(s)[i] == escaped_char(s.last())[i - front.len()]);
            }
        }
    }
}

/// Whether a text begins with one of the five entities.
pub open spec fn begins_with_entity(s: Seq<char>) -> bool {
    "&amp;"@.is_prefix_of(s) || "&lt;"@.is_prefix_of(s) || "&gt;"@.is_prefix_of(s)
        || "&quot;"@.is_prefix_of(s) || "&apos;"@.is_prefix_of(s)
}

/// Every ampersand in escaped text begins one of the five entities.
pub proof fn law_every_ampersand_begins_an_entity(s: Seq<char>, i: int)
    requires
        0 <= i < escaped(s).len(),
        escaped(s)[i] == '&',
    ensures
        begins_with_entity(escaped(s).skip(i)),
    decreases s.len(),
{
    lemma_escaped_front(s);
    reveal_strlit("&amp;");
    reveal_strlit("&lt;");
    reveal_strlit("&gt;");
    reveal_strlit("&quot;");
    reveal_strlit("&apos;");
    let first = escaped_char(s[0]);
    let rest = escaped(s.skip(1));
    if i < first.len() {
        assert(escaped(s)[i] == first[i]);
        assert(i == 0);
        assert(escaped(s).skip(0) =~= escaped(s));
        assert(first.is_prefix_of(escaped(s)));
    } else {
        let k = i - first.len();
        assert(escaped(s)[i] == rest[k]);
        law_every_ampersand_begins_an_entity(s.skip(1), k);
        assert(escaped(s).skip(i) =~= rest.skip(k));
    }
}

/// Escaping goes character by character: two texts can be escaped together or one
/// after the other.
pub proof fn law_escaping_distributes(a: Seq<char>, b: Seq<char>)
    ensures
        escaped(a + b) == escaped(a) + escaped(b),
    decreases b.len(),
{
    if b.len() == 0 {
        assert(a + b =~= a);
        assert(escaped(a) + escaped(b) =~= escaped(a));
    } else {
        law_escaping_distributes(a, b.drop_last());
        assert((a + b).drop_last() =~= a + b.drop_last());
        assert(escaped(a + b) =~= escaped(a) + escaped(b));
    }
}

/// Different texts are escaped differently.
pub proof fn law_escaping_is_injective(a: Seq<char>, b: Seq<char>)
    requires
        escaped(a) == escaped(b),
    ensures
        a == b,
{
    law_escaping_is_undone_by_reading(a);
    law_escaping_is_undone_by_reading(b);
}

/// The elements of a property list, at any depth, are whole lines: they end with a
/// line feed.
pub proof fn law_elements_end_with_a_line_feed(value: Plist, depth: nat)
    ensures
        xml(value, depth).len() > 0,
        xml(value, depth).last() == '\n',
{
    reveal_strlit("</dict>\n");
    reveal_strlit("</array>\n");
    reveal_strlit("</string>\n");
    reveal_strlit("<true/>\n");
    reveal_strlit("<false/>\n");
    reveal_strlit("</integer>\n");
}

/// A text with two spaces put before each of its lines.
pub open spec fn indent_lines(s: Seq<char>) -> Seq<char>
    decreases s.len(),
{
    if s.len() == 0 {
        s
    } else if s.len() == 1 || s[s.len() - 2] == '\n' {
        indent_lines(s.drop_last()) + "  "@.push(s.last())
    } else {
        indent_lines(s.drop_last()).push(s.last())
    }
}

/// Whether no key and no text of a property list holds a line feed.
pub open spec fn holds_no_line_feed(value: Plist) -> bool
    decreases value,
{
    match value {
        Plist::Dictionary(entries) => forall|i: int|
            0 <= i < entries.len() ==> !(#[trigger] entries[i]).0.contains('\n')
                && holds_no_line_feed(entries[i].1),
        Plist::Array(values) => forall|i: int|
            0 <= i < values.len() ==> holds_no_line_feed(#[trigger] values[i]),
        Plist::Text(text) => !text.contains('\n'),
        _ => true,
    }
}

/// Whether a text is empty or ends with a line feed.
spec fn is_lines(s: Seq<char>) -> bool {
    s.len() == 0 || s.last() == '\n'
}

/// Whether a text is one line, with nothing behind its line feed.
spec fn is_line(s: Seq<char>) -> bool {
    s.len() > 0 && s.last() == '\n' && forall|i: int|
        0 <= i < s.len() - 1 ==> #[trigger] s[i] != '\n'
}

proof fn lemma_indent_lines_together(a: Seq<char>, b: Seq<char>)
    requires
        is_lines(a),
    ensures
        indent_lines(a + b) == indent_lines(a) + indent_lines(b),
    decreases b.len(),
{
    if b.len() == 0 {
        assert(a + b =~= a);
        assert(indent_lines(a) + indent_lines(b) =~= indent_lines(a));
    } else {
        lemma_indent_lines_together(a, b.drop_last());
        assert((a + b).drop_last() =~= a + b.drop_last());
        assert(indent_lines(a + b) =~= indent_lines(a) + indent_lines(b));
    }
}

proof fn lemma_indent_one_line(s: Seq<char>)
    requires
        s.len() > 0,
        forall|i: int| 0 <= i < s.len() - 1 ==> #[trigger] s[i] != '\n',
    ensures
        indent_lines(s) == "  "@ + s,
    decreases s.len(),
{
    if s.len() == 1 {
        assert(indent_lines(s.drop_last()) =~= Seq::<char>::empty());
        assert(indent_lines(s) =~= "  "@ + s);
    } else {
        assert(s[s.len() - 2] != '\n');
        assert forall|i: int| 0 <= i < s.len() - 2 implies #[trigger] s.drop_last()[i] != '\n' by {
            assert(s.drop_last()[i] == s[i]);
        }
        lemma_indent_one_line(s.drop_last());
        assert(indent_lines(s) =~= "  "@ + s);
    }
}

proof fn lemma_indentation(depth: nat)
    ensures
        indentation_text(depth + 1) == "  "@ + indentation_text(depth),
        forall|i: int|
            0 <= i < indentation_text(depth).len() ==> #[trigger] indentation_text(depth)[i]
                == ' ',
    decreases depth,
{
    reveal_strlit("  ");
    if depth > 0 {
        lemma_indentation((depth - 1) as nat);
    }
    assert(indentation_text(depth + 1) =~= "  "@ + indentation_text(depth));
}

/// A line one level deeper is that line with two spaces before it.
proof fn lemma_deeper_line(depth: nat, rest: Seq<char>)
    requires
        is_line(rest),
    ensures
        indent_lines(indentation_text(depth) + rest) == indentation_text(depth + 1) + rest,
        is_lines(indentation_text(depth) + rest),
{
    let line = indentation_text(depth) + rest;
    lemma_indentation(depth);
    assert forall|i: int| 0 <= i < line.len() - 1 implies #[trigger] line[i] != '\n' by {
        if i < indentation_text(depth).len() {
            assert(line[i] == indentation_text(depth)[i]);
        } else {
            assert(line[i] == rest[i - indentation_text(depth).len()]);
        }
    }
    lemma_indent_one_line(line);
    assert("  "@ + line =~= indentation_text(depth + 1) + rest);
}

proof fn lemma_escaped_has_no_line_feed(s: Seq<char>)
    requires
        !s.contains('\n'),
    ensures
        forall|i: int| 0 <= i < escaped(s).len() ==> #[trigger] escaped(s)[i] != '\n',
    decreases s.len(),
{
    if s.len() > 0 {
        reveal_strlit("&amp;");
        reveal_strlit("&lt;");
        reveal_strlit("&gt;");
        reveal_strlit("&quot;");
        reveal_strlit("&apos;");
        let front = escaped(s.drop_last());
        assert(s.contains(s[s.len() - 1]));
        assert(!s.drop_last().contains('\n')) by {
            if s.drop_last().contains('\n') {
                let k = choose|k: int| 0 <= k < s.len() - 1 && s.drop_last()[k] == '\n';
                assert(s[k] == '\n');
            }
        }
        lemma_escaped_has_no_line_feed(s.drop_last());
        assert forall|i: int| 0 <= i < escaped(s).len() implies #[trigger] escaped(s)[i]
            != '\n' by {
            if i < front.len() {
                assert(escaped(s)[i] == front[i]);
            } else {
                assert(escaped(s)[i] == escaped_char(s.last())[i - front.len()]);
            }
        }
    }
}

proof fn lemma_deeper_entries(entries: Seq<(Seq<char>, Plist)>, depth: nat)
    requires
        forall|i: int|
            0 <= i < entries.len() ==> !(#[trigger] entries[i]).0.contains('\n')
                && holds_no_line_feed(entries[i].1),
    ensures
        entries_xml(entries, depth + 1) == indent_lines(entries_xml(entries, depth)),
        is_lines(entries_xml(entries, depth)),
    decreases entries,
{
    if entries.len() > 0 {
        let last = entries[entries.len() - 1];
        let front = entries_xml(entries.drop_last(), depth);
        assert forall|i: int| 0 <= i < entries.drop_last().len() implies !(
        #[trigger] entries.drop_last()[i]).0.contains('\n') && holds_no_line_feed(
            entries.drop_last()[i].1,
        ) by {
            assert(entries.drop_last()[i] == entries[i]);
        }
        lemma_deeper_entries(entries.drop_last(), depth);
        law_deeper_elements_are_indented(last.1, depth);
        law_elements_end_with_a_line_feed(last.1, depth);
        lemma_escaped_has_no_line_feed(last.0);
        reveal_strlit("<key>");
        reveal_strlit("</key>\n");
        let rest = "<key>"@ + escaped(last.0) + "</key>\n"@;
        assert(is_line(rest));
        lemma_deeper_line(depth, rest);
        let line = indentation_text(depth) + rest;
        let below = xml(last.1, depth);
        assert(entries_xml(entries, depth) =~= front + (line + below));
        lemma_indent_lines_together(line, below);
        lemma_indent_lines_together(front, line + below);
        assert(entries_xml(entries, depth + 1) =~= entries_xml(entries.drop_last(), depth + 1) + ((
        indentation_text(depth + 1) + rest) + xml(last.1, depth + 1)));
    }
}

proof fn lemma_deeper_values(values: Seq<Plist>, depth: nat)
    requires
        forall|i: int| 0 <= i < values.len() ==> holds_no_line_feed(#[trigger] values[i]),
    ensures
        values_xml(values, depth + 1) == indent_lines(values_xml(values, depth)),
        is_lines(values_xml(values, depth)),
    decreases values,
{
    if values.len() > 0 {
        let last = values[values.len() - 1];
        assert forall|i: int| 0 <= i < values.drop_last().len() implies holds_no_line_feed(
            #[trigger] values.drop_last()[i],
        ) by {
            assert(values.drop_last()[i] == values[i]);
        }
        lemma_deeper_values(values.drop_last(), depth);
        law_deeper_elements_are_indented(last, depth);
        law_elements_end_with_a_line_feed(last, depth);
        lemma_indent_lines_together(values_xml(values.drop_last(), depth), xml(last, depth));
    }
}

/// An element that is one line, written between its tags.
proof fn lemma_deeper_text(depth: nat, open: Seq<char>, inner: Seq<char>, close: Seq<char>)
    requires
        !open.contains('\n'),
        !inner.contains('\n'),
        is_line(close),
    ensures
        indent_lines(indentation_text(depth) + open + inner + close) == indentation_text(depth + 1)
            + open + inner + close,
{
    let rest = open + inner + close;
    assert forall|i: int| 0 <= i < rest.len() - 1 implies #[trigger] rest[i] != '\n' by {
        if i < open.len() {
            assert(open.contains(open[i]));
        } else if i < open.len() + inner.len() {
            assert(inner.contains(inner[i - open.len()]));
        } else {
            assert(rest[i] == close[i - open.len() - inner.len()]);
        }
    }
    lemma_deeper_line(depth, rest);
    assert(indentation_text(depth) + open + inner + close =~= indentation_text(depth) + rest);
    assert(indentation_text(depth + 1) + open + inner + close =~= indentation_text(depth + 1)
        + rest);
}

/// Elements that stand between an opening and a closing line.
proof fn lemma_deeper_block(
    depth: nat,
    open: Seq<char>,
    inner: Seq<char>,
    deeper: Seq<char>,
    close: Seq<char>,
)
    requires
        is_line(open),
        is_lines(inner),
        deeper == indent_lines(inner),
        is_line(close),
    ensures
        indent_lines(
            indentation_text(depth) + open + inner + indentation_text(depth) + close,
        ) == indentation_text(depth + 1) + open + deeper + indentation_text(depth + 1) + close,
{
    let first = indentation_text(depth) + open;
    let last = indentation_text(depth) + close;
    lemma_deeper_line(depth, open);
    lemma_deeper_line(depth, close);
    lemma_indent_lines_together(first, inner);
    lemma_indent_lines_together(first + inner, last);
    assert(indentation_text(depth) + open + inner + indentation_text(depth) + close =~= (first
        + inner) + last);
    assert(indentation_text(depth + 1) + open + deeper + indentation_text(depth + 1) + close =~= ((
    indentation_text(depth + 1) + open) + deeper) + (indentation_text(depth + 1) + close));
}

/// One level deeper, the elements of a property list are the same lines with two
/// spaces before each, where no key and no text holds a line feed.
pub proof fn law_deeper_elements_are_indented(value: Plist, depth: nat)
    requires
        holds_no_line_feed(value),
    ensures
        xml(value, depth + 1) == indent_lines(xml(value, depth)),
    decreases value,
{
    match value {
        Plist::Dictionary(entries) => {
            lemma_deeper_entries(entries, depth + 1);
            reveal_strlit("<dict>\n");
            reveal_strlit("</dict>\n");
            lemma_deeper_block(
                depth,
                "<dict>\n"@,
                entries_xml(entries, depth + 1),
                entries_xml(entries, depth + 2),
                "</dict>\n"@,
            );
        },
        Plist::Array(values) => {
            lemma_deeper_values(values, depth + 1);
            reveal_strlit("<array>\n");
            reveal_strlit("</array>\n");
            lemma_deeper_block(
                depth,
                "<array>\n"@,
                values_xml(values, depth + 1),
                values_xml(values, depth + 2),
                "</array>\n"@,
            );
        },
        Plist::Text(text) => {
            lemma_escaped_has_no_line_feed(text);
            reveal_strlit("<string>");
            reveal_strlit("</string>\n");
            lemma_deeper_text(depth, "<string>"@, escaped(text), "</string>\n"@);
        },
        Plist::Bool(b) => {
            reveal_strlit("<true/>\n");
            reveal_strlit("<false/>\n");
            lemma_deeper_line(
                depth,
                if b {
                    "<true/>\n"@
                } else {
                    "<false/>\n"@
                },
            );
        },
        Plist::Integer(n) => {
            text::lemma_decimal(n);
            reveal_strlit("<integer>");
            reveal_strlit("</integer>\n");
            lemma_deeper_text(depth, "<integer>"@, text::decimal(n), "</integer>\n"@);
        },
    }
}

/// Text is escaped character by character: behind what the text before it became, each
/// of the five characters of markup is written as its entity and every other as itself.
pub proof fn law_text_is_escaped_character_by_character(
    shorter: &mut String,
    front: &str,
    out: &mut String,
    value: &str,
    last: char,
)
    requires
        old(shorter)@ == old(out)@,
        call_ensures(write_escaped_xml, (shorter, front), ()),
        value@ == front@.push(last),
        call_ensures(write_escaped_xml, (out, value), ()),
    ensures
        last == '&' ==> final(out)@ == final(shorter)@ + "&amp;"@,
        last == '<' ==> final(out)@ == final(shorter)@ + "&lt;"@,
        last == '>' ==> final(out)@ == final(shorter)@ + "&gt;"@,
        last == '"' ==> final(out)@ == final(shorter)@ + "&quot;"@,
        last == '\'' ==> final(out)@ == final(shorter)@ + "&apos;"@,
        last != '&' && last != '<' && last != '>' && last != '"' && last != '\'' ==> final(out)@
            == final(shorter)@.push(last),
        front@.len() == 0 ==> final(shorter)@ == old(shorter)@,
{
    assert(value@.drop_last() =~= front@);
    assert(final(out)@ =~= final(shorter)@ + escaped_char(last));
    assert(front@.len() == 0 ==> final(shorter)@ =~= old(shorter)@);
    assert(final(shorter)@ + seq![last] =~= final(shorter)@.push(last));
}

/// How a property list is written: a text, a truth value and a number on one line each,
/// an array and a dictionary on lines of their own around what they hold.
pub proof fn law_elements_of_a_property_list(
    value: PropertyListValue,
    output: &mut String,
)
    requires
        call_ensures(PropertyListValue::write_xml, (&value, output, 0), ()),
    ensures
        value matches PropertyListValue::Text(text) ==> final(output)@ == old(output)@
            + "<string>"@ + escaped(text@) + "</string>\n"@,
        value == PropertyListValue::Bool(true) ==> final(output)@ == old(output)@ + "<true/>\n"@,
        value == PropertyListValue::Bool(false) ==> final(output)@ == old(output)@ + "<false/>\n"@,
        value matches PropertyListValue::Integer(n) ==> final(output)@ == old(output)@
            + "<integer>"@ + text::decimal(n as nat) + "</integer>\n"@,
        value matches PropertyListValue::Array(items) ==> final(output)@ == old(output)@
            + "<array>\n"@ + values_xml(plists(items@), 1) + "</array>\n"@,
        value matches PropertyListValue::Dictionary(entries) ==> final(output)@ == old(output)@
            + "<dict>\n"@ + entries_xml(plist_entries(entries@), 1) + "</dict>\n"@,
{
    lemma_plist(value);
    let before = old(output)@;
    match value {
        PropertyListValue::Text(text) => {
            assert(final(output)@ =~= before + "<string>"@ + escaped(text@) + "</string>\n"@);
        },
        PropertyListValue::Bool(b) => {
            assert(final(output)@ =~= before + (if b {
                "<true/>\n"@
            } else {
                "<false/>\n"@
            }));
        },
        PropertyListValue::Integer(n) => {
            assert(final(output)@ =~= before + "<integer>"@ + text::decimal(n as nat)
                + "</integer>\n"@);
        },
        PropertyListValue::Array(items) => {
            assert(final(output)@ =~= before + "<array>\n"@ + values_xml(plists(items@), 1)
                + "</array>\n"@);
        },
        PropertyListValue::Dictionary(entries) => {
            assert(final(output)@ =~= before + "<dict>\n"@ + entries_xml(
                plist_entries(entries@),
                1,
            ) + "</dict>\n"@);
        },
    }
}

/// The lines of a key and of a text, one level deep.
pub proof fn lemma_entry_lines(entries: Seq<(Seq<char>, Plist)>, key: Seq<char>, value: Plist)
    requires
        escaped(key) == key,
    ensures
        entries_xml(entries.push((key, value)), 1) == entries_xml(entries, 1) + ("  "@ + "<key>"@
            + key + "</key>\n"@) + xml(value, 1),
        value matches Plist::Text(text) ==> xml(value, 1) == "  "@ + "<string>"@ + escaped(text)
            + "</string>\n"@,
        value == Plist::Bool(true) ==> xml(value, 1) == "  "@ + "<true/>\n"@,
        value matches Plist::Integer(n) ==> xml(value, 1) == "  "@ + "<integer>"@ + text::decimal(n)
            + "</integer>\n"@,
{
    let all = entries.push((key, value));
    assert(all.drop_last() =~= entries);
    reveal_with_fuel(indentation_text, 2);
    assert(indentation_text(1) =~= "  "@);
    assert(entries_xml(all, 1) =~= entries_xml(entries, 1) + ("  "@ + "<key>"@ + key
        + "</key>\n"@) + xml(value, 1));
}

/// The lines of an array of two texts, one level deep.
pub proof fn lemma_two_texts(first: Seq<char>, second: Seq<char>)
    ensures
        xml(Plist::Array(seq![Plist::Text(first), Plist::Text(second)]), 1) == "  "@ + "<array>\n"@
            + ("    "@ + "<string>"@ + escaped(first) + "</string>\n"@) + ("    "@ + "<string>"@
            + escaped(second) + "</string>\n"@) + "  "@ + "</array>\n"@,
{
    reveal_with_fuel(indentation_text, 3);
    reveal_strlit("  ");
    reveal_strlit("    ");
    assert(indentation_text(1) =~= "  "@);
    assert(indentation_text(2) =~= "    "@);
    let values = seq![Plist::Text(first), Plist::Text(second)];
    let one = values.drop_last();
    assert(one =~= seq![Plist::Text(first)]);
    assert(one.drop_last() =~= Seq::<Plist>::empty());
    assert(values_xml(one.drop_last(), 2) =~= Seq::<char>::empty());
    let a = "    "@ + "<string>"@ + escaped(first) + "</string>\n"@;
    let b = "    "@ + "<string>"@ + escaped(second) + "</string>\n"@;
    assert(xml(Plist::Text(first), 2) =~= a);
    assert(xml(Plist::Text(second), 2) =~= b);
    assert(values_xml(one, 2) =~= a);
    assert(values_xml(values, 2) =~= a + b);
    assert(xml(Plist::Array(values), 1) =~= "  "@ + "<array>\n"@ + a + b + "  "@ + "</array>\n"@);
}

/// A text without characters of markup is written as it is.
pub proof fn lemma_plain_text_is_not_escaped(s: Seq<char>)
    requires
        forall|i: int|
            0 <= i < s.len() ==> #[trigger] s[i] != '&' && s[i] != '<' && s[i] != '>' && s[i] != '"'
                && s[i] != '\'',
    ensures
        escaped(s) == s,
    decreases s.len(),
{
    if s.len() > 0 {
        let front = s.drop_last();
        assert forall|i: int| 0 <= i < front.len() implies #[trigger] front[i] != '&' && front[i]
            != '<' && front[i] != '>' && front[i] != '"' && front[i] != '\'' by {
            assert(front[i] == s[i]);
        }
        lemma_plain_text_is_not_escaped(front);
        assert(s[s.len() - 1] == s.last());
        assert(escaped(s) =~= s);
    }
}

} // verus!
