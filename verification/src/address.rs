//! Literal IP socket addresses.
use vstd::prelude::*;
use vstd::slice::slice_subrange;

use crate::text::{self, find_char, parse_number, split_chars};

verus! {

/// An IP address as the number that its bits spell, first group first.
#[derive(Clone, Copy, Debug, PartialEq, Eq, Structural)]
pub enum IpAddress {
    V4(u32),
    V6(u128),
}

/// An IP address with a port and, for version 6, a scope.
#[derive(Clone, Copy, Debug, PartialEq, Eq, Structural)]
pub struct SocketAddress {
    pub ip: IpAddress,
    pub port: u16,
    pub scope_id: u32,
}

/// The value of a decimal octet: one to three digits, no leading zero, at most
/// 255.
pub open spec fn octet(s: Seq<char>) -> Option<int> {
    if s.len() <= 3 && (s.len() > 1 ==> s[0] != '0') {
        text::number(s, 10, 255)
    } else {
        None
    }
}

/// Four octets with dots between them.
pub open spec fn ipv4(s: Seq<char>) -> Option<int> {
    let pieces = text::split(s, '.');
    if pieces.len() == 4 && octet(pieces[0]) is Some && octet(pieces[1]) is Some && octet(
        pieces[2],
    ) is Some && octet(pieces[3]) is Some {
        Some(
            octet(pieces[0])->0 * 0x100_0000 + octet(pieces[1])->0 * 0x1_0000 + octet(pieces[2])->0
                * 0x100 + octet(pieces[3])->0,
        )
    } else {
        None
    }
}

/// One to four hexadecimal digits.
pub open spec fn hex_group(s: Seq<char>) -> Option<int> {
    if s.len() <= 4 {
        text::number(s, 16, 0xffff)
    } else {
        None
    }
}

/// The sixteen-bit groups of a row of pieces. The last piece may be a dotted
/// IPv4 address, which makes two groups, where that is allowed.
pub open spec fn piece_groups(pieces: Seq<Seq<char>>, dotted: bool) -> Option<Seq<int>>
    decreases pieces.len(),
{
    if pieces.len() == 0 {
        Some(Seq::<int>::empty())
    } else {
        match piece_groups(pieces.drop_last(), false) {
            None => None,
            Some(front) => match (hex_group(pieces.last()), ipv4(pieces.last())) {
                (Some(group), _) => Some(front.push(group)),
                (None, Some(address)) => if dotted {
                    Some(front.push(address / 0x1_0000).push(address % 0x1_0000))
                } else {
                    None
                },
                (None, None) => None,
            },
        }
    }
}

/// The groups of a text with colons between them; an empty text has none.
pub open spec fn groups(s: Seq<char>, dotted: bool) -> Option<Seq<int>> {
    if s.len() == 0 {
        Some(Seq::<int>::empty())
    } else {
        piece_groups(text::split(s, ':'), dotted)
    }
}

/// The number that a row of groups spells.
pub open spec fn groups_value(groups: Seq<int>) -> int
    decreases groups.len(),
{
    if groups.len() == 0 {
        0
    } else {
        groups_value(groups.drop_last()) * 0x1_0000 + groups.last()
    }
}

/// Whether a double colon starts at `i`.
pub open spec fn double_colon_at(s: Seq<char>, i: int) -> bool {
    0 <= i && i + 1 < s.len() && s[i] == ':' && s[i + 1] == ':'
}

/// Where the first double colon starts, looking only before `end`.
pub open spec fn double_colon(s: Seq<char>, end: nat) -> Option<int>
    decreases end,
{
    if end == 0 {
        None
    } else {
        match double_colon(s, (end - 1) as nat) {
            Some(i) => Some(i),
            None => if double_colon_at(s, end - 1) {
                Some(end - 1)
            } else {
                None
            },
        }
    }
}

/// A row of groups of zero.
pub open spec fn zero_groups(n: int) -> Seq<int> {
    Seq::new(n as nat, |i: int| 0)
}

/// Eight groups, or fewer with one double colon for one or more groups of zero.
pub open spec fn ipv6(s: Seq<char>) -> Option<int> {
    match double_colon(s, s.len()) {
        None => match groups(s, true) {
            Some(all) => if all.len() == 8 {
                Some(groups_value(all))
            } else {
                None
            },
            None => None,
        },
        Some(i) => match (groups(s.take(i), false), groups(s.skip(i + 2), true)) {
            (Some(head), Some(tail)) => if head.len() + tail.len() <= 7 {
                Some(groups_value(head + zero_groups(8 - head.len() - tail.len()) + tail))
            } else {
                None
            },
            _ => None,
        },
    }
}

/// A decimal port of any number of digits.
pub open spec fn port(s: Seq<char>) -> Option<int> {
    text::number(s, 10, 0xffff)
}

/// What a literal socket address stands for: `a.b.c.d:port`, or
/// `[ipv6]:port` with an optional `%scope` inside the brackets.
pub open spec fn socket_address(s: Seq<char>) -> Option<SocketAddress> {
    if s.len() > 0 && s[0] == '[' {
        match text::first_index(s, ']') {
            None => None,
            Some(close) => {
                let inside = s.subrange(1, close);
                let after = s.skip(close + 1);
                let (address, scope) = match text::first_index(inside, '%') {
                    None => (inside, Some(0)),
                    Some(i) => (
                        inside.take(i),
                        text::number(inside.skip(i + 1), 10, 0xffff_ffff),
                    ),
                };
                if after.len() > 0 && after[0] == ':' && ipv6(address) is Some && scope is Some
                    && port(after.skip(1)) is Some {
                    Some(
                        SocketAddress {
                            ip: IpAddress::V6(ipv6(address)->0 as u128),
                            port: port(after.skip(1))->0 as u16,
                            scope_id: scope->0 as u32,
                        },
                    )
                } else {
                    None
                }
            },
        }
    } else {
        match text::first_index(s, ':') {
            None => None,
            Some(colon) => if ipv4(s.take(colon)) is Some && port(s.skip(colon + 1)) is Some {
                Some(
                    SocketAddress {
                        ip: IpAddress::V4(ipv4(s.take(colon))->0 as u32),
                        port: port(s.skip(colon + 1))->0 as u16,
                        scope_id: 0,
                    },
                )
            } else {
                None
            },
        }
    }
}

/// 127.0.0.0/8 and ::1.
pub open spec fn is_loopback_address(ip: IpAddress) -> bool {
    match ip {
        IpAddress::V4(address) => address / 0x100_0000 == 127,
        IpAddress::V6(address) => address == 1,
    }
}

impl IpAddress {
    /// Whether the address is a loopback address.
    pub fn is_loopback(&self) -> (r: bool)
        ensures
            r == is_loopback_address(*self),
    {
        match *self {
            IpAddress::V4(address) => address / 0x100_0000 == 127,
            IpAddress::V6(address) => address == 1,
        }
    }
}

fn parse_octet(s: &[char]) -> (r: Option<u32>)
    ensures
        match r {
            Some(n) => octet(s@) == Some(n as int) && n <= 255,
            None => octet(s@) is None,
        },
{
    if s.len() > 3 || (s.len() > 1 && s[0] == '0') {
        return None;
    }
    match parse_number(s, 10, 255) {
        Some(n) => Some(n as u32),
        None => None,
    }
}

/// The number of a dotted IPv4 address, if the characters are one.
pub fn parse_ipv4(s: &[char]) -> (r: Option<u32>)
    ensures
        match r {
            Some(n) => ipv4(s@) == Some(n as int),
            None => ipv4(s@) is None,
        },
{
    let pieces = split_chars(s, '.');
    let ghost parts = text::split(s@, '.');
    assert(parts.len() == pieces@.len());
    assert(forall|i: int| 0 <= i < pieces@.len() ==> parts[i] == pieces@[i]@);
    if pieces.len() != 4 {
        return None;
    }
    match (
        parse_octet(&pieces[0]),
        parse_octet(&pieces[1]),
        parse_octet(&pieces[2]),
        parse_octet(&pieces[3]),
    ) {
        (Some(a), Some(b), Some(c), Some(d)) => Some(
            a * 0x100_0000 + b * 0x1_0000 + c * 0x100 + d,
        ),
        _ => None,
    }
}

/// The groups as mathematical integers.
pub open spec fn group_values(list: Seq<u16>) -> Seq<int> {
    list.map_values(|g: u16| g as int)
}

proof fn lemma_piece_groups_none(pieces: Seq<Seq<char>>, k: int, dotted: bool)
    requires
        0 <= k < pieces.len(),
        piece_groups(pieces.take(k), false) is None,
    ensures
        piece_groups(pieces, dotted) is None,
    decreases pieces.len(),
{
    if k == pieces.len() - 1 {
        assert(pieces.drop_last() =~= pieces.take(k));
    } else {
        assert(pieces.drop_last().take(k) =~= pieces.take(k));
        lemma_piece_groups_none(pieces.drop_last(), k, false);
    }
}

fn parse_piece_groups(pieces: &Vec<Vec<char>>, dotted: bool) -> (r: Option<Vec<u16>>)
    ensures
        match r {
            Some(list) => piece_groups(text::views(pieces@), dotted) == Some(
                group_values(list@),
            ),
            None => piece_groups(text::views(pieces@), dotted) is None,
        },
{
    let ghost parts = text::views(pieces@);
    let mut list: Vec<u16> = Vec::new();
    assert(group_values(list@) =~= Seq::<int>::empty());
    for i in 0..pieces.len()
        invariant
            parts == text::views(pieces@),
            piece_groups(parts.take(i as int), if i == pieces.len() { dotted } else { false })
                == Some(group_values(list@)),
    {
        let piece = &pieces[i];
        let is_last = i + 1 == pieces.len();
        let ghost before = list@;
        assert(parts.take(i + 1).drop_last() =~= parts.take(i as int));
        assert(parts.take(i + 1).last() == piece@);
        assert(is_last ==> parts.take(i + 1) =~= parts);
        let hex = if piece.len() <= 4 {
            parse_number(piece, 16, 0xffff)
        } else {
            None
        };
        match hex {
            Some(group) => {
                list.push(group as u16);
                assert(group_values(list@) =~= group_values(before).push(group as int));
            },
            None => {
                let address = parse_ipv4(piece);
                match address {
                    Some(address) => {
                        if !(is_last && dotted) {
                            proof {
                                if !is_last {
                                    lemma_piece_groups_none(parts, i + 1, dotted);
                                }
                            }
                            return None;
                        }
                        list.push((address / 0x1_0000) as u16);
                        list.push((address % 0x1_0000) as u16);
                        assert(group_values(list@) =~= group_values(before).push(
                            address as int / 0x1_0000,
                        ).push(address as int % 0x1_0000));
                    },
                    None => {
                        proof {
                            if !is_last {
                                lemma_piece_groups_none(parts, i + 1, dotted);
                            }
                        }
                        return None;
                    },
                }
            },
        }
    }
    assert(parts.take(parts.len() as int) =~= parts);
    Some(list)
}

fn parse_groups(s: &[char], dotted: bool) -> (r: Option<Vec<u16>>)
    ensures
        match r {
            Some(list) => groups(s@, dotted) == Some(group_values(list@)),
            None => groups(s@, dotted) is None,
        },
{
    if s.len() == 0 {
        let list: Vec<u16> = Vec::new();
        assert(group_values(list@) =~= Seq::<int>::empty());
        return Some(list);
    }
    let pieces = split_chars(s, ':');
    parse_piece_groups(&pieces, dotted)
}

/// `2` to the power of sixteen times `n`.
spec fn group_shift(n: nat) -> int
    decreases n,
{
    if n == 0 {
        1
    } else {
        group_shift((n - 1) as nat) * 0x1_0000
    }
}

fn eight_groups_value(list: &Vec<u16>) -> (r: u128)
    requires
        list@.len() == 8,
    ensures
        r == groups_value(group_values(list@)),
{
    let mut value: u128 = 0;
    let ghost all = group_values(list@);
    assert(group_shift(8) == 0x1_0000_0000_0000_0000_0000_0000_0000_0000) by {
        reveal_with_fuel(group_shift, 9);
    }
    for i in 0..8
        invariant
            list@.len() == 8,
            all == group_values(list@),
            value == groups_value(all.take(i as int)),
            value < group_shift(i as nat),
            group_shift(8) == 0x1_0000_0000_0000_0000_0000_0000_0000_0000,
    {
        proof {
            assert(all.take(i + 1).drop_last() =~= all.take(i as int));
            lemma_group_shift_grows((i + 1) as nat, 8);
        }
        value = value * 0x1_0000 + list[i] as u128;
    }
    assert(all.take(8) =~= all);
    value
}

proof fn lemma_group_shift_grows(m: nat, n: nat)
    requires
        m <= n,
    ensures
        0 < group_shift(m) <= group_shift(n),
    decreases n,
{
    if m < n {
        lemma_group_shift_grows(m, (n - 1) as nat);
    } else if m > 0 {
        lemma_group_shift_grows((m - 1) as nat, (m - 1) as nat);
    }
}

fn find_double_colon(s: &[char]) -> (r: Option<usize>)
    ensures
        match r {
            Some(i) => double_colon(s@, s@.len()) == Some(i as int) && double_colon_at(
                s@,
                i as int,
            ),
            None => double_colon(s@, s@.len()) is None,
        },
{
    for i in 0..s.len()
        invariant
            double_colon(s@, i as nat) is None,
    {
        if s[i] == ':' && s.len() - i > 1 && s[i + 1] == ':' {
            proof {
                lemma_double_colon_stays(s@, (i + 1) as nat, s@.len());
            }
            return Some(i);
        }
    }
    None
}

proof fn lemma_double_colon_stays(s: Seq<char>, m: nat, n: nat)
    requires
        m <= n,
        double_colon(s, m) is Some,
    ensures
        double_colon(s, n) == double_colon(s, m),
    decreases n,
{
    if m < n {
        lemma_double_colon_stays(s, m, (n - 1) as nat);
    }
}

/// The number of an IPv6 address, if the characters are one.
pub fn parse_ipv6(s: &[char]) -> (r: Option<u128>)
    ensures
        match r {
            Some(n) => ipv6(s@) == Some(n as int),
            None => ipv6(s@) is None,
        },
{
    match find_double_colon(s) {
        None => match parse_groups(s, true) {
            Some(all) => if all.len() == 8 {
                Some(eight_groups_value(&all))
            } else {
                None
            },
            None => None,
        },
        Some(i) => {
            let end = s.len();
            let before = slice_subrange(s, 0, i);
            let after = slice_subrange(s, i + 2, end);
            assert(before@ =~= s@.take(i as int));
            assert(after@ =~= s@.skip(i + 2));
            let head = parse_groups(before, false);
            let tail = parse_groups(after, true);
            match (head, tail) {
                (Some(head), Some(tail)) => if head.len() <= 7 && tail.len() <= 7 - head.len() {
                    let mut all = head;
                    while all.len() < 8 - tail.len()
                        invariant
                            head@.len() + tail@.len() <= 7,
                            head@.len() <= all@.len() <= 8 - tail@.len(),
                            group_values(all@) == group_values(head@) + zero_groups(
                                all@.len() - head@.len(),
                            ),
                        decreases 8 - all@.len(),
                    {
                        let ghost held = all@;
                        all.push(0);
                        let ghost zeros = zero_groups(held.len() - head@.len());
                        assert(group_values(all@) =~= group_values(held).push(0));
                        assert(zero_groups(all@.len() - head@.len()) =~= zeros.push(0));
                        assert((group_values(head@) + zeros).push(0) =~= group_values(head@)
                            + zeros.push(0));
                    }
                    let ghost padded = all@;
                    for k in 0..tail.len()
                        invariant
                            all@ == padded + tail@.take(k as int),
                    {
                        all.push(tail[k]);
                        assert(tail@.take(k + 1) =~= tail@.take(k as int).push(tail@[k as int]));
                    }
                    assert(group_values(all@) =~= group_values(padded) + group_values(tail@));
                    Some(eight_groups_value(&all))
                } else {
                    None
                },
                _ => None,
            }
        },
    }
}

/// Where `]` closes the address that `[` opens, and what stands inside.
fn parse_bracketed(s: &[char]) -> (r: Option<SocketAddress>)
    requires
        s@.len() > 0,
        s@[0] == '[',
    ensures
        r == socket_address(s@),
{
    let close = match find_char(s, ']') {
        None => {
            return None;
        },
        Some(close) => close,
    };
    proof {
        text::lemma_first_index(s@, ']');
    }
    let end = s.len();
    let inside = slice_subrange(s, 1, close);
    let after = slice_subrange(s, close + 1, end);
    assert(after@ =~= s@.skip(close + 1));
    if after.len() == 0 || after[0] != ':' {
        return None;
    }
    let port_text = slice_subrange(after, 1, after.len());
    assert(port_text@ =~= after@.skip(1));
    proof {
        text::lemma_first_index(inside@, '%');
    }
    let inside_end = inside.len();
    let (address, scope) = match find_char(inside, '%') {
        None => (inside, Some(0)),
        Some(i) => {
            let scope_text = slice_subrange(inside, i + 1, inside_end);
            assert(scope_text@ =~= inside@.skip(i + 1));
            (slice_subrange(inside, 0, i), parse_number(scope_text, 10, 0xffff_ffff))
        },
    };
    match (parse_ipv6(address), scope, parse_number(port_text, 10, 0xffff)) {
        (Some(ip), Some(scope), Some(port)) => Some(
            SocketAddress { ip: IpAddress::V6(ip), port: port as u16, scope_id: scope as u32 },
        ),
        _ => None,
    }
}

/// The socket address that a literal stands for, if it is one.
pub fn parse_socket_address(text: &str) -> (r: Option<SocketAddress>)
    ensures
        r == socket_address(text@),
{
    let chars = text::chars_of(text);
    let s = chars.as_slice();
    if s.len() > 0 && s[0] == '[' {
        return parse_bracketed(s);
    }
    let end = s.len();
    match find_char(s, ':') {
        None => None,
        Some(colon) => {
            proof {
                text::lemma_first_index(s@, ':');
            }
            let address = slice_subrange(s, 0, colon);
            let port_text = slice_subrange(s, colon + 1, end);
            assert(address@ =~= s@.take(colon as int));
            assert(port_text@ =~= s@.skip(colon + 1));
            match (parse_ipv4(address), parse_number(port_text, 10, 0xffff)) {
                (Some(ip), Some(port)) => Some(
                    SocketAddress { ip: IpAddress::V4(ip), port: port as u16, scope_id: 0 },
                ),
                _ => None,
            }
        },
    }
}

/// The decimal digits of a small number: as few as can be, without a zero before them.
proof fn lemma_short_decimal(n: nat)
    requires
        n < 100_000,
    ensures
        n < 10 ==> text::decimal(n).len() == 1,
        n < 256 ==> text::decimal(n).len() <= 3,
        text::decimal(n).len() > 1 ==> text::decimal(n)[0] != '0',
        text::decimal(n).len() > 0,
{
    reveal_with_fuel(text::decimal, 5);
    text::lemma_decimal(n);
}

proof fn lemma_octet(n: u8)
    ensures
        octet(text::decimal(n as nat)) == Some(n as int),
        !text::decimal(n as nat).contains('.'),
        !text::decimal(n as nat).contains(':'),
        text::decimal(n as nat).len() > 0,
{
    let s = text::decimal(n as nat);
    lemma_short_decimal(n as nat);
    text::lemma_decimal(n as nat);
    assert forall|i: int| 0 <= i < s.len() implies s[i] != '.' && s[i] != ':' by {
        assert(text::is_digit(s[i]));
    }
}

/// Four numbers with dots between them.
pub open spec fn dotted(a: u8, b: u8, c: u8, d: u8) -> Seq<char> {
    text::decimal(a as nat).push('.') + text::decimal(b as nat).push('.') + text::decimal(
        c as nat,
    ).push('.') + text::decimal(d as nat)
}

/// Four texts without dots and colons, with dots between them.
#[verifier::spinoff_prover]
proof fn lemma_four_pieces(w: Seq<char>, x: Seq<char>, y: Seq<char>, z: Seq<char>)
    requires
        !w.contains('.') && !x.contains('.') && !y.contains('.') && !z.contains('.'),
        !w.contains(':') && !x.contains(':') && !y.contains(':') && !z.contains(':'),
    ensures
        text::split(w.push('.') + x.push('.') + y.push('.') + z, '.') == seq![w, x, y, z],
        !(w.push('.') + x.push('.') + y.push('.') + z).contains(':'),
{
    let s = w.push('.') + x.push('.') + y.push('.') + z;
    let i = w.len() as int;
    let j = i + 1 + x.len();
    let k = j + 1 + y.len();
    assert forall|p: int| 0 <= p < s.len() implies (s[p] == '.' <==> p == i || p == j || p == k)
        && s[p] != ':' by {
        if p < i {
            assert(s[p] == w[p]);
            assert(w.contains(w[p]));
        } else if i < p < j {
            assert(s[p] == x[p - i - 1]);
            assert(x.contains(x[p - i - 1]));
        } else if j < p < k {
            assert(s[p] == y[p - j - 1]);
            assert(y.contains(y[p - j - 1]));
        } else if k < p {
            assert(s[p] == z[p - k - 1]);
            assert(z.contains(z[p - k - 1]));
        }
    }
    text::lemma_split_in_four(s, '.', i, j, k);
    assert(s.take(i) =~= w);
    assert(s.subrange(i + 1, j) =~= x);
    assert(s.subrange(j + 1, k) =~= y);
    assert(s.skip(k + 1) =~= z);
}

proof fn lemma_dotted(a: u8, b: u8, c: u8, d: u8)
    ensures
        ipv4(dotted(a, b, c, d)) == Some(
            a as int * 0x100_0000 + b as int * 0x1_0000 + c as int * 0x100 + d as int,
        ),
        !dotted(a, b, c, d).contains(':'),
        dotted(a, b, c, d).len() > 0,
        dotted(a, b, c, d)[0] != '[',
{
    let w = text::decimal(a as nat);
    lemma_octet(a);
    lemma_octet(b);
    lemma_octet(c);
    lemma_octet(d);
    text::lemma_decimal(a as nat);
    lemma_four_pieces(
        w,
        text::decimal(b as nat),
        text::decimal(c as nat),
        text::decimal(d as nat),
    );
    assert(dotted(a, b, c, d)[0] == w[0]);
    assert(text::is_digit(w[0]));
}

/// Four numbers with dots between them and a port behind a colon are the address with
/// those bytes and that port.
pub proof fn law_dotted_addresses_are_read(
    text: &str,
    a: u8,
    b: u8,
    c: u8,
    d: u8,
    port: u16,
    r: Option<SocketAddress>,
)
    requires
        call_ensures(parse_socket_address, (text,), r),
        text@ == dotted(a, b, c, d).push(':') + text::decimal(port as nat),
    ensures
        r == Some(
            SocketAddress {
                ip: IpAddress::V4(
                    (a * 0x100_0000 + b * 0x1_0000 + c * 0x100 + d) as u32,
                ),
                port,
                scope_id: 0,
            },
        ),
{
    let ip = dotted(a, b, c, d);
    let digits = text::decimal(port as nat);
    let s = text@;
    lemma_dotted(a, b, c, d);
    text::lemma_decimal(port as nat);
    assert forall|p: int| 0 <= p < ip.len() implies s[p] != ':' by {
        assert(s[p] == ip[p]);
        assert(ip.contains(ip[p]));
    }
    text::lemma_first_index_unique(s, ':', ip.len() as int);
    assert(s.take(ip.len() as int) =~= ip);
    assert(s.skip(ip.len() as int + 1) =~= digits);
    assert(s[0] == ip[0]);
}

/// `::1` in brackets, with a port, is the loopback address of version 6, and `::` the
/// one that stands for all.
pub proof fn law_short_addresses_are_read(text: &str, port: u16, r: Option<SocketAddress>)
    requires
        call_ensures(parse_socket_address, (text,), r),
    ensures
        text@ == "[::1]:"@ + text::decimal(port as nat) ==> r == Some(
            SocketAddress { ip: IpAddress::V6(1), port, scope_id: 0 },
        ),
        text@ == "[::]:"@ + text::decimal(port as nat) ==> r == Some(
            SocketAddress { ip: IpAddress::V6(0), port, scope_id: 0 },
        ),
{
    if text@ == "[::1]:"@ + text::decimal(port as nat) {
        lemma_bracketed(text@, seq![':', ':', '1'], port);
        lemma_ipv6_one();
        reveal_strlit("[::1]:");
        assert(text@ =~= seq!['['] + seq![':', ':', '1'] + seq![']', ':'] + text::decimal(
            port as nat,
        ));
    }
    if text@ == "[::]:"@ + text::decimal(port as nat) {
        lemma_bracketed(text@, seq![':', ':'], port);
        lemma_ipv6_zero();
        reveal_strlit("[::]:");
        assert(text@ =~= seq!['['] + seq![':', ':'] + seq![']', ':'] + text::decimal(port as nat));
    }
}

/// An address of version 6 in brackets, with a port behind it.
#[verifier::spinoff_prover]
proof fn lemma_bracketed(s: Seq<char>, inside: Seq<char>, port: u16)
    requires
        forall|i: int| 0 <= i < inside.len() ==> #[trigger] inside[i] != ']' && inside[i] != '%',
    ensures
        s == seq!['['] + inside + seq![']', ':'] + text::decimal(port as nat) ==> socket_address(s)
            == match ipv6(inside) {
            Some(n) => Some(SocketAddress { ip: IpAddress::V6(n as u128), port, scope_id: 0 }),
            None => None,
        },
{
    let digits = text::decimal(port as nat);
    let close = inside.len() as int + 1;
    text::lemma_decimal(port as nat);
    if s == seq!['['] + inside + seq![']', ':'] + digits {
        assert forall|i: int| 0 <= i < close implies s[i] != ']' by {
            if i > 0 {
                assert(s[i] == inside[i - 1]);
            }
        }
        assert(s[close] == ']');
        text::lemma_first_index_unique(s, ']', close);
        assert(s.subrange(1, close) =~= inside);
        assert(s.skip(close + 1)[0] == ':');
        assert(s.skip(close + 1).skip(1) =~= digits);
        text::lemma_first_index(inside, '%');
    }
}

#[verifier::spinoff_prover]
proof fn lemma_ipv6_one()
    ensures
        ipv6(seq![':', ':', '1']) == Some(1int),
{
    let inside = seq![':', ':', '1'];
    assert(double_colon(inside, 3) == Some(0int)) by {
        reveal_with_fuel(double_colon, 4);
    }
    assert(inside.take(0) =~= Seq::<char>::empty());
    let one = inside.skip(2);
    assert(one =~= seq!['1']);
    text::lemma_split_whole(one, ':');
    assert(text::number_value(one, 16) == 1) by {
        reveal_with_fuel(text::number_value, 2);
        assert(one.drop_last() =~= Seq::<char>::empty());
    }
    assert(seq![one].drop_last() =~= Seq::<Seq<char>>::empty());
    assert(piece_groups(seq![one].drop_last(), false) == Some(Seq::<int>::empty()));
    assert(Seq::<int>::empty().push(1) =~= seq![1int]);
    assert(groups(one, true) == Some(seq![1int]));
    let all = Seq::<int>::empty() + zero_groups(7) + seq![1int];
    lemma_zero_groups(7);
    assert(all.drop_last() =~= zero_groups(7));
}

#[verifier::spinoff_prover]
proof fn lemma_ipv6_zero()
    ensures
        ipv6(seq![':', ':']) == Some(0int),
{
    let inside = seq![':', ':'];
    assert(double_colon(inside, 2) == Some(0int)) by {
        reveal_with_fuel(double_colon, 3);
    }
    assert(inside.take(0) =~= Seq::<char>::empty());
    assert(inside.skip(2) =~= Seq::<char>::empty());
    let all = Seq::<int>::empty() + zero_groups(8) + Seq::<int>::empty();
    lemma_zero_groups(8);
    assert(all =~= zero_groups(8));
}

proof fn lemma_zero_groups(n: nat)
    ensures
        groups_value(zero_groups(n as int)) == 0,
    decreases n,
{
    if n > 0 {
        lemma_zero_groups((n - 1) as nat);
        assert(zero_groups(n as int).drop_last() =~= zero_groups(n - 1));
    }
}

/// What is no address: a text without a colon, one that begins like an address of
/// version 4 and has no number up to 65535 behind its first colon, and one that begins
/// neither with a bracket nor with a digit.
pub proof fn law_other_texts_are_no_address(text: &str, colon: int, r: Option<SocketAddress>)
    requires
        call_ensures(parse_socket_address, (text,), r),
    ensures
        !text@.contains(':') ==> r is None,
        text@.len() == 0 ==> r is None,
        text@.len() > 0 && text@[0] != '[' && !('0' <= text@[0] && text@[0] <= '9') ==> r is None,
        r is Some && text@[0] != '[' ==> r->0.ip is V4 && r->0.scope_id == 0,
        r is Some && text@[0] == '[' ==> r->0.ip is V6,
        0 <= colon < text@.len() && text@[colon] == ':' && (forall|i: int|
            0 <= i < colon ==> #[trigger] text@[i] != ':') && text@[0] != '[' && (colon + 1
            == text@.len() || !('0' <= text@[colon + 1] && text@[colon + 1] <= '9')) ==> r is None,
{
    let s = text@;
    text::lemma_first_index(s, ':');
    if s.len() > 0 && s[0] == '[' && !s.contains(':') {
        text::lemma_first_index(s, ']');
        if let Some(close) = text::first_index(s, ']') {
            let after = s.skip(close + 1);
            if after.len() > 0 && after[0] == ':' {
                assert(s[close + 1] == ':');
                assert(s.contains(s[close + 1]));
            }
        }
    }
    if s.len() > 0 && s[0] != '[' && !('0' <= s[0] && s[0] <= '9') {
        if let Some(i) = text::first_index(s, ':') {
            let head = s.take(i);
            let pieces = text::split(head, '.');
            if ipv4(head) is Some {
                text::lemma_first_index(head, '.');
                if head.len() == 0 {
                    assert(pieces.len() == 1);
                } else {
                    match text::first_index(head, '.') {
                        Some(dot) => {
                            text::lemma_split_front(head, '.', dot);
                            assert(pieces[0] == head.take(dot));
                            assert(octet(pieces[0]) is Some);
                            assert(pieces[0].len() > 0);
                            assert(pieces[0][0] == s[0]);
                            assert(text::digit_value(pieces[0][0]) < 10);
                        },
                        None => {
                            text::lemma_split_whole(head, '.');
                        },
                    }
                }
            }
        }
    }
    if 0 <= colon < s.len() && s[colon] == ':' && (forall|i: int|
        0 <= i < colon ==> #[trigger] s[i] != ':') && s[0] != '[' {
        text::lemma_first_index_unique(s, ':', colon);
        let behind = s.skip(colon + 1);
        if behind.len() > 0 {
            assert(behind[0] == s[colon + 1]);
        }
    }
}

/// The loopback addresses are those whose first byte is 127 and, of version 6, the one
/// address `::1`.
pub proof fn law_loopback_addresses(a: u8, b: u8, c: u8, d: u8, six: u128, four: bool, other: bool)
    requires
        call_ensures(
            IpAddress::is_loopback,
            (&IpAddress::V4((a * 0x100_0000 + b * 0x1_0000 + c * 0x100 + d) as u32),),
            four,
        ),
        call_ensures(IpAddress::is_loopback, (&IpAddress::V6(six),), other),
    ensures
        four <==> a == 127,
        other <==> six == 1,
{
}

/// One to four hexadecimal digits.
pub open spec fn is_hex_text(s: Seq<char>) -> bool {
    0 < s.len() <= 4 && forall|i: int|
        0 <= i < s.len() ==> ('0' <= #[trigger] s[i] && s[i] <= '9') || ('a' <= s[i] && s[i] <= 'f')
            || ('A' <= s[i] && s[i] <= 'F')
}

/// Whether texts are groups of an address, with their numbers.
pub open spec fn are_groups(texts: Seq<Seq<char>>, values: Seq<int>) -> bool {
    &&& texts.len() == values.len()
    &&& forall|k: int|
        0 <= k < texts.len() ==> is_hex_text(#[trigger] texts[k]) && text::number_value(
            texts[k],
            16,
        ) == values[k]
}

proof fn lemma_hex_text(s: Seq<char>)
    requires
        is_hex_text(s),
    ensures
        hex_group(s) == Some(text::number_value(s, 16)),
        !s.contains(':') && !s.contains(']') && !s.contains('%'),
{
    assert forall|i: int| 0 <= i < s.len() implies text::digit_value(#[trigger] s[i]) < 16 && s[i]
        != ':' && s[i] != ']' && s[i] != '%' by {
        assert(('0' <= s[i] && s[i] <= '9') || ('a' <= s[i] && s[i] <= 'f') || ('A' <= s[i] && s[i]
            <= 'F'));
    }
    lemma_hex_bound(s);
}

proof fn lemma_hex_bound(s: Seq<char>)
    requires
        s.len() <= 4,
        forall|i: int| 0 <= i < s.len() ==> 0 <= text::digit_value(#[trigger] s[i]) < 16,
    ensures
        0 <= text::number_value(s, 16),
        s.len() == 0 ==> text::number_value(s, 16) == 0,
        s.len() == 1 ==> text::number_value(s, 16) < 0x10,
        s.len() == 2 ==> text::number_value(s, 16) < 0x100,
        s.len() == 3 ==> text::number_value(s, 16) < 0x1000,
        s.len() == 4 ==> text::number_value(s, 16) < 0x1_0000,
    decreases s.len(),
{
    if s.len() > 0 {
        let front = s.drop_last();
        assert forall|i: int| 0 <= i < front.len() implies 0 <= text::digit_value(
            #[trigger] front[i],
        ) < 16 by {
            assert(front[i] == s[i]);
        }
        lemma_hex_bound(front);
        assert(s[s.len() - 1] == s.last());
    }
}

proof fn lemma_groups_are_read(texts: Seq<Seq<char>>, values: Seq<int>, dotted: bool)
    requires
        are_groups(texts, values),
    ensures
        piece_groups(texts, dotted) == Some(values),
    decreases texts.len(),
{
    if texts.len() == 0 {
        assert(values =~= Seq::<int>::empty());
    } else {
        let front = texts.drop_last();
        assert forall|k: int| 0 <= k < front.len() implies is_hex_text(#[trigger] front[k])
            && text::number_value(front[k], 16) == values.drop_last()[k] by {
            assert(front[k] == texts[k]);
        }
        lemma_groups_are_read(front, values.drop_last(), false);
        lemma_hex_text(texts[texts.len() - 1]);
        assert(values.drop_last().push(values.last()) =~= values);
    }
}

/// The groups of texts with colons between them, which hold no double colon.
proof fn lemma_joined_groups(texts: Seq<Seq<char>>, values: Seq<int>, dotted: bool)
    requires
        are_groups(texts, values),
    ensures
        groups(text::with_separators(texts, ':'), dotted) == Some(values),
        forall|i: int| !#[trigger] double_colon_at(text::with_separators(texts, ':'), i),
        texts.len() > 0 ==> text::with_separators(texts, ':').len() > 0,
        texts.len() > 0 ==> text::with_separators(texts, ':')[0] != ':' && text::with_separators(
            texts,
            ':',
        ).last() != ':',
        forall|i: int|
            0 <= i < text::with_separators(texts, ':').len() ==> #[trigger] text::with_separators(
                texts,
                ':',
            )[i] != ']' && text::with_separators(texts, ':')[i] != '%',
{
    let s = text::with_separators(texts, ':');
    if texts.len() == 0 {
        assert(values =~= Seq::<int>::empty());
    } else {
        assert forall|k: int| 0 <= k < texts.len() implies !(#[trigger] texts[k]).contains(':') by {
            lemma_hex_text(texts[k]);
        }
        text::lemma_split_of_joined(texts, ':');
        lemma_groups_are_read(texts, values, dotted);
        let first = text::split(s, ':');
        assert(s.len() > 0) by {
            if s.len() == 0 {
                text::lemma_split_whole(s, ':');
                assert(texts[0] == s);
            }
        }
        assert forall|i: int| !#[trigger] double_colon_at(s, i) by {
            if double_colon_at(s, i) {
                text::lemma_split_has_piece(s, ':', i + 1, i + 1);
                let k = choose|k: int|
                    0 <= k < first.len() && #[trigger] first[k] == s.subrange(i + 1, i + 1);
                assert(is_hex_text(texts[k]));
            }
        }
        if s[0] == ':' {
            text::lemma_split_has_piece(s, ':', 0, 0);
            let k = choose|k: int| 0 <= k < first.len() && #[trigger] first[k] == s.subrange(0, 0);
            assert(is_hex_text(texts[k]));
        }
        let n = s.len() as int;
        if s.last() == ':' {
            text::lemma_split_has_piece(s, ':', n, n);
            let k = choose|k: int| 0 <= k < first.len() && #[trigger] first[k] == s.subrange(n, n);
            assert(is_hex_text(texts[k]));
        }
        assert forall|i: int| 0 <= i < s.len() implies #[trigger] s[i] != ']' && s[i] != '%' by {
            if s[i] != ':' {
                lemma_place_in_piece(s, i);
                let (k, j) = choose|k: int, j: int|
                    0 <= k < first.len() && 0 <= j < first[k].len() && #[trigger] first[k][j]
                        == s[i];
                lemma_hex_text(texts[k]);
                assert(texts[k].contains(texts[k][j]));
            }
        }
    }
}

/// Every character that is no separator stands in a piece.
proof fn lemma_place_in_piece(s: Seq<char>, i: int)
    requires
        0 <= i < s.len(),
        s[i] != ':',
    ensures
        exists|k: int, j: int|
            0 <= k < text::split(s, ':').len() && 0 <= j < text::split(
                s,
                ':',
            )[k].len() && #[trigger] text::split(s, ':')[k][j] == s[i],
    decreases s.len(),
{
    let all = text::split(s, ':');
    let front = text::split(s.drop_last(), ':');
    text::lemma_split_len(s.drop_last(), ':');
    if i == s.len() - 1 {
        let k = all.len() - 1;
        assert(all[k][all[k].len() - 1] == s[i]);
    } else {
        lemma_place_in_piece(s.drop_last(), i);
        let (k, j) = choose|k: int, j: int|
            0 <= k < front.len() && 0 <= j < front[k].len() && #[trigger] front[k][j] == s[i];
        assert(all[k][j] == s[i]);
    }
}

proof fn lemma_no_double_colon(s: Seq<char>, n: nat)
    requires
        forall|i: int| 0 <= i < n ==> !#[trigger] double_colon_at(s, i),
    ensures
        double_colon(s, n) is None,
    decreases n,
{
    if n > 0 {
        lemma_no_double_colon(s, (n - 1) as nat);
    }
}

/// An address of version 6 that is written with all its eight groups is the number that
/// these spell, the first one as the highest.
#[verifier::spinoff_prover]
pub proof fn law_full_addresses_are_read(
    text: &str,
    texts: Seq<Seq<char>>,
    values: Seq<int>,
    port: u16,
    r: Option<SocketAddress>,
)
    requires
        call_ensures(parse_socket_address, (text,), r),
        texts.len() == 8,
        are_groups(texts, values),
        text@ == seq!['['] + text::with_separators(texts, ':') + seq![']', ':'] + text::decimal(
            port as nat,
        ),
    ensures
        r == Some(
            SocketAddress {
                ip: IpAddress::V6(
                    (values[0] * 0x1_0000_0000_0000_0000_0000_0000_0000 + values[1]
                        * 0x1_0000_0000_0000_0000_0000_0000 + values[2]
                        * 0x1_0000_0000_0000_0000_0000 + values[3] * 0x1_0000_0000_0000_0000
                        + values[4] * 0x1_0000_0000_0000 + values[5] * 0x1_0000_0000 + values[6]
                        * 0x1_0000 + values[7]) as u128,
                ),
                port,
                scope_id: 0,
            },
        ),
{
    let inside = text::with_separators(texts, ':');
    lemma_joined_groups(texts, values, true);
    lemma_no_double_colon(inside, inside.len());
    lemma_bracketed(text@, inside, port);
    lemma_eight_groups(values);
}

proof fn lemma_eight_groups(values: Seq<int>)
    requires
        values.len() == 8,
    ensures
        groups_value(values) == values[0] * 0x1_0000_0000_0000_0000_0000_0000_0000 + values[1]
            * 0x1_0000_0000_0000_0000_0000_0000 + values[2] * 0x1_0000_0000_0000_0000_0000
            + values[3] * 0x1_0000_0000_0000_0000 + values[4] * 0x1_0000_0000_0000 + values[5]
            * 0x1_0000_0000 + values[6] * 0x1_0000 + values[7],
{
    let a = values.take(1);
    let b = values.take(2);
    let c = values.take(3);
    let d = values.take(4);
    let e = values.take(5);
    let f = values.take(6);
    let g = values.take(7);
    assert(a.drop_last() =~= Seq::<int>::empty());
    assert(b.drop_last() =~= a);
    assert(c.drop_last() =~= b);
    assert(d.drop_last() =~= c);
    assert(e.drop_last() =~= d);
    assert(f.drop_last() =~= e);
    assert(g.drop_last() =~= f);
    assert(values.drop_last() =~= g);
    assert(groups_value(a.drop_last()) == 0);
    assert(groups_value(a) == values[0]);
    assert(groups_value(b) == values[0] * 0x1_0000 + values[1]);
    assert(groups_value(c) == groups_value(b) * 0x1_0000 + values[2]);
    assert(groups_value(d) == groups_value(c) * 0x1_0000 + values[3]);
    assert(groups_value(e) == groups_value(d) * 0x1_0000 + values[4]);
    assert(groups_value(f) == groups_value(e) * 0x1_0000 + values[5]);
    assert(groups_value(g) == groups_value(f) * 0x1_0000 + values[6]);
}

/// A double colon stands for as many groups of zero as are missing: an address with one
/// is the same as the address with those groups written out.
#[verifier::spinoff_prover]
pub proof fn law_double_colon_stands_for_zeros(
    short: &str,
    short_read: Option<SocketAddress>,
    long: &str,
    long_read: Option<SocketAddress>,
    head: Seq<Seq<char>>,
    head_values: Seq<int>,
    tail: Seq<Seq<char>>,
    tail_values: Seq<int>,
    zeros: Seq<Seq<char>>,
    port: u16,
)
    requires
        call_ensures(parse_socket_address, (short,), short_read),
        call_ensures(parse_socket_address, (long,), long_read),
        are_groups(head, head_values),
        are_groups(tail, tail_values),
        are_groups(zeros, zero_groups(zeros.len() as int)),
        zeros.len() > 0,
        head.len() + zeros.len() + tail.len() == 8,
        short@ == seq!['['] + (text::with_separators(head, ':') + seq![':', ':']
            + text::with_separators(tail, ':')) + seq![']', ':'] + text::decimal(port as nat),
        long@ == seq!['['] + text::with_separators(head + zeros + tail, ':') + seq![']', ':']
            + text::decimal(port as nat),
    ensures
        long_read is Some,
        short_read == long_read,
{
    let a = text::with_separators(head, ':');
    let b = text::with_separators(tail, ':');
    let inside = a + seq![':', ':'] + b;
    lemma_joined_groups(head, head_values, false);
    lemma_joined_groups(tail, tail_values, true);
    let n = a.len() as int;
    assert forall|i: int| 0 <= i < n implies !#[trigger] double_colon_at(inside, i) by {
        if i + 1 < n {
            assert(!double_colon_at(a, i));
            assert(inside[i] == a[i] && inside[i + 1] == a[i + 1]);
        } else {
            assert(inside[i] == a.last());
        }
    }
    lemma_no_double_colon(inside, n as nat);
    assert(double_colon_at(inside, n));
    assert(double_colon(inside, (n + 1) as nat) == Some(n));
    lemma_double_colon_stays(inside, (n + 1) as nat, inside.len());
    assert(inside.take(n) =~= a);
    assert(inside.skip(n + 2) =~= b);
    let middle = zero_groups(zeros.len() as int);
    let values = head_values + middle + tail_values;
    assert(ipv6(inside) == Some(groups_value(values)));
    assert forall|i: int| 0 <= i < inside.len() implies #[trigger] inside[i] != ']' && inside[i]
        != '%' by {
        if i < n {
            assert(inside[i] == a[i]);
        } else if i >= n + 2 {
            assert(inside[i] == b[i - n - 2]);
        }
    }
    lemma_bracketed(short@, inside, port);
    let all = head + zeros + tail;
    assert forall|k: int| 0 <= k < all.len() implies is_hex_text(#[trigger] all[k])
        && text::number_value(all[k], 16) == values[k] by {
        if k < head.len() {
            assert(all[k] == head[k]);
        } else if k < head.len() + zeros.len() {
            assert(all[k] == zeros[k - head.len()]);
        } else {
            assert(all[k] == tail[k - head.len() - zeros.len()]);
        }
    }
    let written = text::with_separators(all, ':');
    lemma_joined_groups(all, values, true);
    lemma_no_double_colon(written, written.len());
    lemma_bracketed(long@, written, port);
}

} // verus!
