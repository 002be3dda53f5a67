//! Characters, digits and pieces of text.
use vstd::prelude::*;

verus! {

/// `String::push` appends one character at the end.
pub assume_specification[ String::push ](string: &mut String, character: char)
    ensures
        final(string)@ == old(string)@.push(character),
;

/// `String::push_str` appends a text at the end.
pub assume_specification[ String::push_str ](string: &mut String, more: &str)
    ensures
        final(string)@ == old(string)@ + more@,
;

/// Two texts compare equal when they hold the same characters.
pub assume_specification[ <str as PartialEq>::eq ](one: &str, other: &str) -> (equal: bool)
    ensures
        equal == (one@ == other@),
;

/// `0` to `9`.
pub open spec fn is_digit(c: char) -> bool {
    '0' <= c && c <= '9'
}

/// An ASCII letter or digit.
pub open spec fn is_alphanumeric(c: char) -> bool {
    is_digit(c) || ('a' <= c && c <= 'z') || ('A' <= c && c <= 'Z')
}

/// An ASCII letter in lower case, every other character unchanged.
pub open spec fn lower_char(c: char) -> char {
    if 'A' <= c && c <= 'Z' {
        ((c as u32) + 32) as char
    } else {
        c
    }
}

/// ASCII case folding of a text.
pub open spec fn lower(s: Seq<char>) -> Seq<char> {
    s.map_values(|c: char| lower_char(c))
}

/// What a character counts as a digit, up to sixteen of them; `16` for no digit.
pub open spec fn digit_value(c: char) -> int {
    if is_digit(c) {
        c as int - '0' as int
    } else if 'a' <= c && c <= 'f' {
        c as int - 'a' as int + 10
    } else if 'A' <= c && c <= 'F' {
        c as int - 'A' as int + 10
    } else {
        16
    }
}

/// One digit at least, and only digits of the radix.
pub open spec fn is_number(s: Seq<char>, radix: int) -> bool {
    s.len() > 0 && forall|i: int| 0 <= i < s.len() ==> digit_value(#[trigger] s[i]) < radix
}

/// The positional value of a row of digits.
pub open spec fn number_value(s: Seq<char>, radix: int) -> int
    decreases s.len(),
{
    if s.len() == 0 {
        0
    } else {
        number_value(s.drop_last(), radix) * radix + digit_value(s.last())
    }
}

/// The number that a row of digits stands for, where it is one and is at most
/// `max`.
pub open spec fn number(s: Seq<char>, radix: int, max: int) -> Option<int> {
    if is_number(s, radix) && number_value(s, radix) <= max {
        Some(number_value(s, radix))
    } else {
        None
    }
}

/// The decimal digits of a number, without leading zeros.
pub open spec fn decimal(n: nat) -> Seq<char>
    decreases n,
{
    if n < 10 {
        seq![('0' as int + n as int) as char]
    } else {
        decimal(n / 10).push(('0' as int + n as int % 10) as char)
    }
}

/// The pieces of `s` between the separators: one more than there are
/// separators, and none of them holds one.
pub open spec fn split<T>(s: Seq<T>, sep: T) -> Seq<Seq<T>>
    decreases s.len(),
{
    if s.len() == 0 {
        seq![Seq::<T>::empty()]
    } else {
        let front = split(s.drop_last(), sep);
        if s.last() == sep {
            front.push(Seq::<T>::empty())
        } else {
            front.drop_last().push(front.last().push(s.last()))
        }
    }
}

/// What a list of vectors holds.
pub open spec fn views<T>(list: Seq<Vec<T>>) -> Seq<Seq<T>> {
    list.map_values(|v: Vec<T>| v@)
}

/// What a list of texts holds.
pub open spec fn texts(list: Seq<String>) -> Seq<Seq<char>> {
    list.map_values(|s: String| s@)
}

/// Where an item stands first.
pub open spec fn first_index<T>(s: Seq<T>, item: T) -> Option<int>
    decreases s.len(),
{
    if s.len() == 0 {
        None
    } else {
        match first_index(s.drop_last(), item) {
            Some(i) => Some(i),
            None => if s.last() == item {
                Some(s.len() - 1)
            } else {
                None
            },
        }
    }
}

/// The first index is where the item stands and did not stand before; there is
/// none where the item does not occur.
pub proof fn lemma_first_index<T>(s: Seq<T>, item: T)
    ensures
        match first_index(s, item) {
            Some(i) => 0 <= i < s.len() && s[i] == item && forall|j: int|
                0 <= j < i ==> s[j] != item,
            None => forall|j: int| 0 <= j < s.len() ==> s[j] != item,
        },
    decreases s.len(),
{
    if s.len() > 0 {
        lemma_first_index(s.drop_last(), item);
        assert(forall|j: int| 0 <= j < s.len() - 1 ==> s.drop_last()[j] == s[j]);
    }
}

/// A place that holds the item and has no such place before it is the first.
pub proof fn lemma_first_index_unique<T>(s: Seq<T>, item: T, i: int)
    requires
        0 <= i < s.len(),
        s[i] == item,
        forall|j: int| 0 <= j < i ==> s[j] != item,
    ensures
        first_index(s, item) == Some(i),
{
    lemma_first_index(s, item);
}

/// Splitting yields one piece at least.
pub proof fn lemma_split_len<T>(s: Seq<T>, sep: T)
    ensures
        split(s, sep).len() > 0,
    decreases s.len(),
{
    if s.len() > 0 {
        lemma_split_len(s.drop_last(), sep);
    }
}

/// A piece behind the last separator is the last of the pieces.
pub proof fn lemma_split_last<T>(s: Seq<T>, sep: T, at: int)
    requires
        0 <= at < s.len(),
        s[at] == sep,
        forall|j: int| at < j < s.len() ==> s[j] != sep,
    ensures
        split(s, sep) == split(s.take(at), sep).push(s.skip(at + 1)),
    decreases s.len(),
{
    if at == s.len() - 1 {
        assert(s.drop_last() =~= s.take(at));
        assert(s.skip(at + 1) =~= Seq::<T>::empty());
    } else {
        let front = s.drop_last();
        lemma_split_last(front, sep, at);
        assert(front.take(at) =~= s.take(at));
        assert(s.skip(at + 1) =~= front.skip(at + 1).push(s.last()));
        assert(split(s, sep) =~= split(s.take(at), sep).push(s.skip(at + 1)));
    }
}

/// A text without separators is one piece.
pub proof fn lemma_split_whole<T>(s: Seq<T>, sep: T)
    requires
        forall|j: int| 0 <= j < s.len() ==> s[j] != sep,
    ensures
        split(s, sep) == seq![s],
    decreases s.len(),
{
    if s.len() == 0 {
        assert(s =~= Seq::<T>::empty());
    } else {
        lemma_split_whole(s.drop_last(), sep);
        assert(s[s.len() - 1] != sep);
        assert(s.drop_last().push(s.last()) =~= s);
        assert(split(s, sep) =~= seq![s]);
    }
}

/// The four pieces around three separators.
pub proof fn lemma_split_in_four<T>(s: Seq<T>, sep: T, a: int, b: int, c: int)
    requires
        0 <= a < b < c < s.len(),
        forall|j: int| 0 <= j < s.len() ==> (s[j] == sep <==> j == a || j == b || j == c),
    ensures
        split(s, sep) == seq![
            s.take(a),
            s.subrange(a + 1, b),
            s.subrange(b + 1, c),
            s.skip(c + 1),
        ],
{
    let first = s.take(a);
    let second = s.take(b);
    let third = s.take(c);
    lemma_split_whole(first, sep);
    lemma_split_last(second, sep, a);
    lemma_split_last(third, sep, b);
    lemma_split_last(s, sep, c);
    assert(second.take(a) =~= first);
    assert(second.skip(a + 1) =~= s.subrange(a + 1, b));
    assert(third.take(b) =~= second);
    assert(third.skip(b + 1) =~= s.subrange(b + 1, c));
    assert(split(s, sep) =~= seq![
        first,
        s.subrange(a + 1, b),
        s.subrange(b + 1, c),
        s.skip(c + 1),
    ]);
}

pub proof fn lemma_number_value_nonneg(s: Seq<char>, radix: int)
    requires
        0 <= radix,
    ensures
        0 <= number_value(s, radix),
    decreases s.len(),
{
    if s.len() > 0 {
        lemma_number_value_nonneg(s.drop_last(), radix);
        assert(0 <= number_value(s.drop_last(), radix) * radix) by (nonlinear_arith)
            requires
                0 <= number_value(s.drop_last(), radix),
                0 <= radix,
        ;
    }
}

/// More digits never make a number smaller.
pub proof fn lemma_number_value_grows(s: Seq<char>, radix: int, n: int)
    requires
        1 <= radix,
        0 <= n <= s.len(),
    ensures
        number_value(s.take(n), radix) <= number_value(s, radix),
    decreases s.len(),
{
    if n == s.len() {
        assert(s.take(n) =~= s);
    } else {
        lemma_number_value_grows(s.drop_last(), radix, n);
        assert(s.drop_last().take(n) =~= s.take(n));
        lemma_number_value_nonneg(s.drop_last(), radix);
        assert(number_value(s.drop_last(), radix) <= number_value(s.drop_last(), radix) * radix)
            by (nonlinear_arith)
            requires
                0 <= number_value(s.drop_last(), radix),
                1 <= radix,
        ;
    }
}

/// Case folding keeps the digits and what they count.
pub proof fn lemma_lower_digits(s: Seq<char>, radix: int, max: int)
    ensures
        number(lower(s), radix, max) == number(s, radix, max),
{
    lemma_lower_number_value(s, radix);
    assert forall|i: int| 0 <= i < s.len() implies digit_value(#[trigger] lower(s)[i])
        == digit_value(s[i]) by {}
    if is_number(lower(s), radix) {
        assert forall|i: int| 0 <= i < s.len() implies digit_value(#[trigger] s[i]) < radix by {
            assert(digit_value(lower(s)[i]) < radix);
        }
    }
}

proof fn lemma_lower_number_value(s: Seq<char>, radix: int)
    ensures
        number_value(lower(s), radix) == number_value(s, radix),
    decreases s.len(),
{
    if s.len() > 0 {
        assert(lower(s).drop_last() =~= lower(s.drop_last()));
        lemma_lower_number_value(s.drop_last(), radix);
    }
}

/// Splitting commutes with case folding, for a separator that is no letter.
pub proof fn lemma_lower_split(s: Seq<char>, sep: char)
    requires
        !('a' <= sep && sep <= 'z'),
        !('A' <= sep && sep <= 'Z'),
    ensures
        split(lower(s), sep) == split(s, sep).map_values(|p: Seq<char>| lower(p)),
    decreases s.len(),
{
    let f = |p: Seq<char>| lower(p);
    if s.len() == 0 {
        assert(lower(s) =~= s);
        assert(split(s, sep).map_values(f) =~= seq![lower(Seq::<char>::empty())]);
        assert(lower(Seq::<char>::empty()) =~= Seq::<char>::empty());
    } else {
        let front = split(s.drop_last(), sep);
        lemma_split_len(s.drop_last(), sep);
        lemma_lower_split(s.drop_last(), sep);
        assert(lower(s).drop_last() =~= lower(s.drop_last()));
        assert(lower(s).last() == lower_char(s.last()));
        if s.last() == sep {
            assert(lower(Seq::<char>::empty()) =~= Seq::<char>::empty());
            assert(split(s, sep).map_values(f) =~= front.map_values(f).push(Seq::<char>::empty()));
        } else {
            assert(lower(front.last().push(s.last())) =~= lower(front.last()).push(
                lower_char(s.last()),
            ));
            assert(split(s, sep).map_values(f) =~= front.map_values(f).drop_last().push(
                front.map_values(f).last().push(lower_char(s.last())),
            ));
        }
    }
}

/// The decimal digits of a number stand for it.
pub proof fn lemma_decimal(n: nat)
    ensures
        is_number(decimal(n), 10),
        number_value(decimal(n), 10) == n,
        forall|i: int| 0 <= i < decimal(n).len() ==> is_digit(#[trigger] decimal(n)[i]),
    decreases n,
{
    reveal_with_fuel(number_value, 2);
    if n < 10 {
        assert(decimal(n).drop_last() =~= Seq::<char>::empty());
    } else {
        lemma_decimal(n / 10);
        assert(decimal(n).drop_last() =~= decimal(n / 10));
    }
}

/// The lower-case form of an ASCII letter; every other character stays.
pub fn to_lower_char(c: char) -> (r: char)
    ensures
        r == lower_char(c),
{
    if 'A' <= c && c <= 'Z' {
        ((c as u8) + 32) as char
    } else {
        c
    }
}

/// Whether the character is `0` to `9`.
pub fn char_is_digit(c: char) -> (r: bool)
    ensures
        r == is_digit(c),
{
    '0' <= c && c <= '9'
}

/// Whether the character is an ASCII letter or digit.
pub fn char_is_alphanumeric(c: char) -> (r: bool)
    ensures
        r == is_alphanumeric(c),
{
    char_is_digit(c) || ('a' <= c && c <= 'z') || ('A' <= c && c <= 'Z')
}

/// What the character counts as a digit; `16` for no digit.
pub fn char_digit_value(c: char) -> (r: u8)
    ensures
        r == digit_value(c),
{
    if '0' <= c && c <= '9' {
        (c as u8) - ('0' as u8)
    } else if 'a' <= c && c <= 'f' {
        (c as u8) - ('a' as u8) + 10
    } else if 'A' <= c && c <= 'F' {
        (c as u8) - ('A' as u8) + 10
    } else {
        16
    }
}

/// The number that the digits stand for, unless it exceeds `max` or a
/// character is no digit of the radix.
pub fn parse_number(digits: &[char], radix: u8, max: u64) -> (r: Option<u64>)
    requires
        1 <= radix <= 16,
    ensures
        match r {
            Some(n) => number(digits@, radix as int, max as int) == Some(n as int),
            None => number(digits@, radix as int, max as int) is None,
        },
{
    if digits.len() == 0 {
        return None;
    }
    let mut value: u128 = 0;
    for i in 0..digits.len()
        invariant
            1 <= radix <= 16,
            value == number_value(digits@.take(i as int), radix as int),
            value <= max,
            forall|j: int| 0 <= j < i ==> digit_value(#[trigger] digits@[j]) < radix,
    {
        let digit = char_digit_value(digits[i]);
        if digit >= radix {
            return None;
        }
        assert(digits@.take(i + 1).drop_last() =~= digits@.take(i as int));
        assert(value * radix <= 0x10_0000_0000_0000_0000) by (nonlinear_arith)
            requires
                value <= u64::MAX,
                radix <= 16,
        ;
        value = value * (radix as u128) + (digit as u128);
        if value > max as u128 {
            proof {
                lemma_number_value_grows(digits@, radix as int, i + 1);
            }
            return None;
        }
    }
    assert(digits@.take(digits@.len() as int) =~= digits@);
    Some(value as u64)
}

/// Appends the decimal digits of a number.
pub fn push_decimal(out: &mut String, n: u64)
    ensures
        final(out)@ == old(out)@ + decimal(n as nat),
    decreases n,
{
    if n >= 10 {
        push_decimal(out, n / 10);
    }
    let digit: char = (((n % 10) as u8) + ('0' as u8)) as char;
    out.push(digit);
    proof {
        if n < 10 {
            assert(out@ =~= old(out)@ + decimal(n as nat));
        } else {
            assert(out@ =~= old(out)@ + decimal(n as nat / 10).push(digit));
        }
    }
}

/// The characters of a text.
pub fn chars_of(text: &str) -> (chars: Vec<char>)
    ensures
        chars@ == text@,
{
    let mut chars: Vec<char> = Vec::new();
    for c in it: text.chars()
        invariant
            chars@ == text@.take(it.index() as int),
            it.seq() == text@,
    {
        assert(text@.take(it.index() + 1) =~= text@.take(it.index() as int).push(c));
        chars.push(c);
    }
    assert(text@.take(text@.len() as int) =~= text@);
    chars
}

/// The text of the given characters.
pub fn text_of(chars: &[char]) -> (text: String)
    ensures
        text@ == chars@,
{
    let mut text = String::new();
    for i in 0..chars.len()
        invariant
            text@ == chars@.take(i as int),
    {
        assert(chars@.take(i + 1) =~= chars@.take(i as int).push(chars@[i as int]));
        text.push(chars[i]);
    }
    assert(chars@.take(chars@.len() as int) =~= chars@);
    text
}

/// A copy of a list of texts.
pub fn clone_texts(list: &[String]) -> (r: Vec<String>)
    ensures
        texts(r@) == texts(list@),
{
    let mut r: Vec<String> = Vec::new();
    for i in 0..list.len()
        invariant
            texts(r@) == texts(list@).take(i as int),
    {
        let ghost before = r@;
        r.push(list[i].clone());
        assert(texts(r@) =~= texts(before).push(list@[i as int]@));
        assert(texts(list@).take(i + 1) =~= texts(list@).take(i as int).push(list@[i as int]@));
    }
    assert(texts(list@).take(list@.len() as int) =~= texts(list@));
    r
}

/// Where a character stands first.
pub fn find_char(chars: &[char], item: char) -> (r: Option<usize>)
    ensures
        match r {
            Some(i) => first_index(chars@, item) == Some(i as int),
            None => first_index(chars@, item) is None,
        },
{
    proof {
        lemma_first_index(chars@, item);
    }
    for i in 0..chars.len()
        invariant
            forall|j: int| 0 <= j < i ==> chars@[j] != item,
    {
        if chars[i] == item {
            proof {
                lemma_first_index_unique(chars@, item, i as int);
            }
            return Some(i);
        }
    }
    None
}

/// The pieces between the separators.
pub fn split_chars(chars: &[char], sep: char) -> (pieces: Vec<Vec<char>>)
    ensures
        views(pieces@) == split(chars@, sep),
{
    let mut pieces: Vec<Vec<char>> = Vec::new();
    let mut current: Vec<char> = Vec::new();
    assert(views(pieces@).push(current@) =~= split(chars@.take(0), sep));
    for i in 0..chars.len()
        invariant
            views(pieces@).push(current@) == split(chars@.take(i as int), sep),
    {
        let ghost prefix = chars@.take(i as int);
        assert(chars@.take(i + 1).drop_last() =~= prefix);
        assert(split(prefix, sep).drop_last() =~= views(pieces@));
        assert(split(prefix, sep).last() == current@);
        if chars[i] == sep {
            let ghost before = pieces@;
            let ghost held = current@;
            pieces.push(current);
            current = Vec::new();
            assert(views(pieces@) =~= views(before).push(held));
            assert(current@ =~= Seq::<char>::empty());
        } else {
            current.push(chars[i]);
        }
    }
    assert(chars@.take(chars@.len() as int) =~= chars@);
    let ghost before = pieces@;
    let ghost held = current@;
    pieces.push(current);
    assert(views(pieces@) =~= views(before).push(held));
    pieces
}

/// Case folding takes the letters `A` to `Z` to `a` to `z` and leaves every other
/// character as it is.
pub proof fn law_only_upper_case_letters_are_folded(c: char, r: char)
    requires
        call_ensures(to_lower_char, (c,), r),
    ensures
        0x41 <= c as u32 <= 0x5a ==> r as u32 == c as u32 + 0x20,
        !(0x41 <= c as u32 <= 0x5a) ==> r == c,
{
}

/// The digits and the ASCII letters, and what each counts as a digit.
pub proof fn law_digits_and_letters(c: char, digit: bool, alphanumeric: bool, value: u8)
    requires
        call_ensures(char_is_digit, (c,), digit),
        call_ensures(char_is_alphanumeric, (c,), alphanumeric),
        call_ensures(char_digit_value, (c,), value),
    ensures
        digit <==> 0x30 <= c as u32 <= 0x39,
        alphanumeric <==> 0x30 <= c as u32 <= 0x39 || 0x41 <= c as u32 <= 0x5a || 0x61 <= c as u32
            <= 0x7a,
        0x30 <= c as u32 <= 0x39 ==> value == c as u32 - 0x30,
        0x41 <= c as u32 <= 0x46 ==> value == c as u32 - 0x37,
        0x61 <= c as u32 <= 0x66 ==> value == c as u32 - 0x57,
        value < 16 ==> 0x30 <= c as u32 <= 0x39 || 0x41 <= c as u32 <= 0x46 || 0x61 <= c as u32
            <= 0x66,
{
}

/// A number below ten is written as its digit, a larger one as the number without its
/// last digit and that digit behind it.
pub proof fn law_decimal_digits_are_appended(
    out: &mut String,
    n: u64,
    shorter: &mut String,
)
    requires
        call_ensures(push_decimal, (out, n), ()),
        old(shorter)@ == old(out)@,
        call_ensures(push_decimal, (shorter, n / 10), ()),
    ensures
        n < 10 ==> final(out)@ == old(out)@.push((0x30 + n) as char),
        n >= 10 ==> final(out)@ == final(shorter)@.push((0x30 + n % 10) as char),
{
    if n < 10 {
        assert(final(out)@ =~= old(out)@.push((0x30 + n) as char));
    } else {
        assert(final(out)@ =~= final(shorter)@.push((0x30 + n % 10) as char));
    }
}

/// Reading the decimal digits of a number gives the number back, unless it is above the
/// largest that is wanted.
pub proof fn law_written_numbers_are_read_back(
    out: &mut String,
    n: u64,
    digits: &[char],
    max: u64,
    r: Option<u64>,
)
    requires
        call_ensures(push_decimal, (out, n), ()),
        old(out)@.len() == 0,
        digits@ == final(out)@,
        call_ensures(parse_number, (digits, 10, max), r),
    ensures
        n <= max ==> r == Some(n),
        n > max ==> r is None,
{
    lemma_decimal(n as nat);
    assert(old(out)@ + decimal(n as nat) =~= decimal(n as nat));
}

/// One digit more multiplies by the radix and adds what the digit counts; what holds
/// another character, or nothing, is no number.
pub proof fn law_numbers_are_read_digit_by_digit(
    digits: &[char],
    radix: u8,
    n: u64,
    longer: &[char],
    last: char,
    r: Option<u64>,
    max: u64,
    bad: &[char],
    at: int,
    none: Option<u64>,
)
    requires
        2 <= radix <= 16,
        call_ensures(parse_number, (digits, radix, u64::MAX), Some(n)),
        longer@ == digits@.push(last),
        0x30 <= last as u32 <= 0x39,
        last as u32 - 0x30 < radix,
        call_ensures(parse_number, (longer, radix, max), r),
        bad@.len() == 0 || 0 <= at < bad@.len() && !(0x30 <= bad@[at] as u32 <= 0x39)
            && !(0x41 <= bad@[at] as u32 <= 0x46) && !(0x61 <= bad@[at] as u32 <= 0x66),
        call_ensures(parse_number, (bad, radix, max), none),
    ensures
        n * radix + (last as u32 - 0x30) <= max ==> r == Some(
            (n * radix + (last as u32 - 0x30)) as u64,
        ),
        n * radix + (last as u32 - 0x30) > max ==> r is None,
        none is None,
{
    assert(longer@.drop_last() =~= digits@);
    assert(is_number(digits@, radix as int));
    assert(is_number(longer@, radix as int));
    if bad@.len() > 0 {
        assert(digit_value(bad@[at]) == 16);
    }
}

/// Texts put together with the separator between them.
pub open spec fn with_separators<T>(pieces: Seq<Seq<T>>, sep: T) -> Seq<T>
    decreases pieces.len(),
{
    if pieces.len() == 0 {
        Seq::<T>::empty()
    } else if pieces.len() == 1 {
        pieces[0]
    } else {
        with_separators(pieces.drop_last(), sep).push(sep) + pieces.last()
    }
}

/// Put together with separators between them, the pieces give the text, and none of
/// them holds a separator.
pub proof fn law_pieces_make_up_the_text(chars: &[char], sep: char, pieces: Vec<Vec<char>>)
    requires
        call_ensures(split_chars, (chars, sep), pieces),
    ensures
        pieces@.len() > 0,
        with_separators(views(pieces@), sep) == chars@,
        forall|k: int, i: int|
            0 <= k < pieces@.len() && 0 <= i < pieces@[k]@.len() ==> #[trigger] pieces@[k]@[i]
                != sep,
{
    lemma_split_joined(chars@, sep);
    let all = views(pieces@);
    assert(all.len() == pieces@.len());
    assert forall|k: int, i: int|
        0 <= k < pieces@.len() && 0 <= i < pieces@[k]@.len() implies #[trigger] pieces@[k]@[i]
        != sep by {
        assert(all[k] == pieces@[k]@);
        assert(split(chars@, sep)[k][i] != sep);
    }
}

/// The pieces of a text with separators between them are the text, and hold none.
pub proof fn lemma_split_joined<T>(s: Seq<T>, sep: T)
    ensures
        split(s, sep).len() > 0,
        with_separators(split(s, sep), sep) == s,
        forall|k: int, i: int|
            0 <= k < split(s, sep).len() && 0 <= i < split(s, sep)[k].len() ==> #[trigger] split(
                s,
                sep,
            )[k][i] != sep,
    decreases s.len(),
{
    let all = split(s, sep);
    if s.len() == 0 {
        assert(all =~= seq![Seq::<T>::empty()]);
        assert(with_separators(all, sep) =~= s);
    } else {
        let front = split(s.drop_last(), sep);
        lemma_split_joined(s.drop_last(), sep);
        if s.last() == sep {
            assert(all.drop_last() =~= front);
            assert(with_separators(all, sep) =~= s);
        } else {
            let longer = front.last().push(s.last());
            assert(all.drop_last() =~= front.drop_last());
            assert(all.last() =~= longer);
            if front.len() == 1 {
                assert(front[0] =~= s.drop_last());
                assert(with_separators(all, sep) =~= s);
            } else {
                let head = with_separators(front.drop_last(), sep).push(sep);
                assert(all.drop_last() == front.drop_last());
                assert(all.len() == front.len());
                assert(with_separators(all, sep) == head + longer);
                assert(head + front.last() == s.drop_last());
                assert(head + longer =~= s.drop_last().push(s.last()));
                assert(with_separators(all, sep) =~= s);
            }
        }
        assert forall|k: int, i: int|
            0 <= k < all.len() && 0 <= i < all[k].len() implies #[trigger] all[k][i] != sep by {
            if k < front.len() && i < front[k].len() {
                assert(front[k][i] != sep);
                assert(all[k][i] == front[k][i]);
            }
        }
    }
}

/// The text between two separators, or between one and an end, is a piece.
pub proof fn lemma_split_has_piece<T>(s: Seq<T>, sep: T, from: int, to: int)
    requires
        0 <= from <= to <= s.len(),
        from == 0 || s[from - 1] == sep,
        to == s.len() || s[to] == sep,
        forall|i: int| from <= i < to ==> #[trigger] s[i] != sep,
    ensures
        exists|k: int|
            0 <= k < split(s, sep).len() && #[trigger] split(s, sep)[k] == s.subrange(from, to),
    decreases s.len(),
{
    let all = split(s, sep);
    if to == s.len() {
        if from == 0 {
            lemma_split_whole(s, sep);
            assert(s.subrange(0, to) =~= s);
            assert(all[0] == s.subrange(from, to));
        } else {
            lemma_split_last(s, sep, from - 1);
            assert(s.skip(from) =~= s.subrange(from, to));
            assert(all[all.len() - 1] == s.subrange(from, to));
        }
    } else {
        let front = s.drop_last();
        let pieces = split(front, sep);
        lemma_split_len(front, sep);
        assert(front.subrange(from, to) =~= s.subrange(from, to));
        if to == front.len() {
            assert(s.last() == sep);
            lemma_split_has_piece(front, sep, from, to);
            let k = choose|k: int|
                0 <= k < pieces.len() && #[trigger] pieces[k] == front.subrange(from, to);
            assert(all[k] == s.subrange(from, to));
        } else {
            lemma_split_has_piece_before(front, sep, from, to);
            let k = choose|k: int|
                0 <= k < pieces.len() - 1 && #[trigger] pieces[k] == front.subrange(from, to);
            assert(all[k] == s.subrange(from, to));
        }
    }
}

/// The same, where a separator stands behind it: then it is not the last piece.
proof fn lemma_split_has_piece_before<T>(s: Seq<T>, sep: T, from: int, to: int)
    requires
        0 <= from <= to < s.len(),
        from == 0 || s[from - 1] == sep,
        s[to] == sep,
        forall|i: int| from <= i < to ==> #[trigger] s[i] != sep,
    ensures
        exists|k: int|
            0 <= k < split(s, sep).len() - 1 && #[trigger] split(s, sep)[k] == s.subrange(
                from,
                to,
            ),
    decreases s.len(),
{
    let all = split(s, sep);
    let front = s.drop_last();
    let pieces = split(front, sep);
    lemma_split_len(front, sep);
    assert(front.subrange(from, to) =~= s.subrange(from, to));
    if to == s.len() - 1 {
        lemma_split_has_piece(front, sep, from, to);
        let k = choose|k: int|
            0 <= k < pieces.len() && #[trigger] pieces[k] == front.subrange(from, to);
        assert(all[k] == s.subrange(from, to));
    } else {
        lemma_split_has_piece_before(front, sep, from, to);
        let k = choose|k: int|
            0 <= k < pieces.len() - 1 && #[trigger] pieces[k] == front.subrange(from, to);
        assert(all[k] == s.subrange(from, to));
    }
}

/// Where a piece stands in the text.
pub open spec fn stands_between<T>(s: Seq<T>, sep: T, piece: Seq<T>, from: int) -> bool {
    &&& 0 <= from
    &&& from + piece.len() <= s.len()
    &&& piece == s.subrange(from, from + piece.len())
    &&& from == 0 || s[from - 1] == sep
    &&& from + piece.len() == s.len() || s[from + piece.len()] == sep
}

/// A piece is the text between two separators, or between one and an end.
pub proof fn lemma_piece_stands_between<T>(s: Seq<T>, sep: T, k: int)
    requires
        0 <= k < split(s, sep).len(),
    ensures
        exists|from: int| #[trigger] stands_between(s, sep, split(s, sep)[k], from),
        k == split(s, sep).len() - 1 ==> stands_between(
            s,
            sep,
            split(s, sep)[k],
            s.len() - split(s, sep)[k].len(),
        ),
    decreases s.len(),
{
    let piece = split(s, sep)[k];
    if s.len() == 0 {
        assert(piece =~= s.subrange(0, 0));
        assert(stands_between(s, sep, piece, 0));
    } else {
        let front = s.drop_last();
        let pieces = split(front, sep);
        lemma_split_len(front, sep);
        if s.last() == sep {
            if k == pieces.len() {
                assert(piece =~= s.subrange(s.len() as int, s.len() as int));
                assert(stands_between(s, sep, piece, s.len() as int));
            } else {
                lemma_piece_stands_between(front, sep, k);
                let from = choose|from: int| #[trigger]
                    stands_between(front, sep, pieces[k], from);
                assert(front.subrange(from, from + piece.len()) =~= s.subrange(
                    from,
                    from + piece.len(),
                ));
                assert(stands_between(s, sep, piece, from));
            }
        } else {
            lemma_piece_stands_between(front, sep, k);
            if k == pieces.len() - 1 {
                let from = front.len() - pieces[k].len();
                assert(stands_between(front, sep, pieces[k], from));
                assert(piece =~= s.subrange(from, s.len() as int));
                assert(stands_between(s, sep, piece, from));
            } else {
                lemma_inner_piece(front, sep, k);
                let from = choose|from: int|
                    #![trigger stands_between(front, sep, pieces[k], from)]
                    stands_between(front, sep, pieces[k], from) && from + pieces[k].len()
                        < front.len();
                assert(front.subrange(from, from + piece.len()) =~= s.subrange(
                    from,
                    from + piece.len(),
                ));
                assert(stands_between(s, sep, piece, from));
            }
        }
    }
}

/// A separator stands behind every piece but the last.
proof fn lemma_inner_piece<T>(s: Seq<T>, sep: T, k: int)
    requires
        0 <= k < split(s, sep).len() - 1,
    ensures
        exists|from: int|
            #![trigger stands_between(s, sep, split(s, sep)[k], from)]
            stands_between(s, sep, split(s, sep)[k], from) && from + split(s, sep)[k].len()
                < s.len(),
    decreases s.len(),
{
    let piece = split(s, sep)[k];
    let front = s.drop_last();
    let pieces = split(front, sep);
    lemma_split_len(front, sep);
    if s.last() == sep && k == pieces.len() - 1 {
        lemma_piece_stands_between(front, sep, k);
        let from = front.len() - piece.len();
        assert(stands_between(front, sep, pieces[k], from));
        assert(front.subrange(from, from + piece.len()) =~= s.subrange(from, from + piece.len()));
        assert(stands_between(s, sep, piece, from));
    } else {
        lemma_inner_piece(front, sep, k);
        let from = choose|from: int|
            #![trigger stands_between(front, sep, pieces[k], from)]
            stands_between(front, sep, pieces[k], from) && from + pieces[k].len() < front.len();
        assert(front.subrange(from, from + piece.len()) =~= s.subrange(from, from + piece.len()));
        assert(stands_between(s, sep, piece, from));
    }
}

/// A character is found where it stands first, and not where it does not stand.
pub proof fn law_first_place_is_found(chars: &[char], item: char, r: Option<usize>)
    requires
        call_ensures(find_char, (chars, item), r),
    ensures
        r matches Some(at) ==> {
            &&& at < chars@.len()
            &&& chars@[at as int] == item
            &&& forall|i: int| 0 <= i < at ==> #[trigger] chars@[i] != item
        },
        r is None ==> forall|i: int| 0 <= i < chars@.len() ==> #[trigger] chars@[i] != item,
{
    lemma_first_index(chars@, item);
}

/// The piece before the first separator, and the pieces behind it.
pub proof fn lemma_split_front<T>(s: Seq<T>, sep: T, at: int)
    requires
        0 <= at < s.len(),
        s[at] == sep,
        forall|j: int| 0 <= j < at ==> s[j] != sep,
    ensures
        split(s, sep) == seq![s.take(at)] + split(s.skip(at + 1), sep),
    decreases s.len(),
{
    let front = s.drop_last();
    if at == s.len() - 1 {
        lemma_split_whole(front, sep);
        assert(front =~= s.take(at));
        assert(s.skip(at + 1) =~= Seq::<T>::empty());
        assert(split(s, sep) =~= seq![s.take(at)] + split(s.skip(at + 1), sep));
    } else {
        lemma_split_front(front, sep, at);
        let rest = s.skip(at + 1);
        assert(front.take(at) =~= s.take(at));
        assert(front.skip(at + 1) =~= rest.drop_last());
        lemma_split_len(rest.drop_last(), sep);
        assert(rest.last() == s.last());
        assert(split(s, sep) =~= seq![s.take(at)] + split(rest, sep));
    }
}

/// Splitting undoes putting together, where no piece holds a separator.
pub proof fn lemma_split_of_joined<T>(pieces: Seq<Seq<T>>, sep: T)
    requires
        pieces.len() > 0,
        forall|k: int| 0 <= k < pieces.len() ==> !(#[trigger] pieces[k]).contains(sep),
    ensures
        split(with_separators(pieces, sep), sep) == pieces,
    decreases pieces.len(),
{
    let s = with_separators(pieces, sep);
    let last = pieces[pieces.len() - 1];
    if pieces.len() == 1 {
        assert forall|j: int| 0 <= j < s.len() implies s[j] != sep by {
            assert(last.contains(s[j]));
        }
        lemma_split_whole(s, sep);
        assert(seq![s] =~= pieces);
    } else {
        let front = pieces.drop_last();
        assert forall|k: int| 0 <= k < front.len() implies !(#[trigger] front[k]).contains(
            sep,
        ) by {
            assert(front[k] == pieces[k]);
        }
        lemma_split_of_joined(front, sep);
        let head = with_separators(front, sep);
        let at = head.len() as int;
        assert(s == head.push(sep) + last);
        assert(s[at] == sep);
        assert forall|j: int| at < j < s.len() implies s[j] != sep by {
            assert(s[j] == last[j - at - 1]);
            assert(last.contains(last[j - at - 1]));
        }
        lemma_split_last(s, sep, at);
        assert(s.take(at) =~= head);
        assert(s.skip(at + 1) =~= last);
        assert(front.push(last) =~= pieces);
    }
}

} // verus!
