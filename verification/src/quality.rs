//! Quality values: whether a decimal text, read as a number of single precision,
//! is above zero and at most one.
use vstd::arithmetic::power::pow;
use vstd::prelude::*;
use vstd::slice::slice_subrange;

use crate::text::{self, char_digit_value, find_char};

verus! {

/// The digits of five to the power of 150. With the point before the first digit
/// and 45 zeros before that, they are half the smallest positive number of single
/// precision.
pub const LOWER_DIGITS: &'static str = "700649232162408535461864791644958065640130970938257885878534141944895541342930300743319094181060791015625";

/// The digits of the number halfway between one and the next larger number of
/// single precision. The point stands behind the first digit.
pub const UPPER_DIGITS: &'static str = "1000000059604644775390625";

/// Where exponents are no longer told apart.
pub const CAP: i128 = 0x10_0000_0000_0000_0000_0000_0000;

/// A row of decimal digits, possibly empty.
pub open spec fn is_digits(s: Seq<char>) -> bool {
    forall|i: int| 0 <= i < s.len() ==> text::is_digit(#[trigger] s[i])
}

/// A decimal number: digits with one point among them at most.
pub struct Decimal {
    pub whole: Seq<char>,
    pub fraction: Seq<char>,
    pub exponent: int,
}

/// Digits with one point among them at most, and one digit at least.
pub open spec fn mantissa(s: Seq<char>) -> Option<(Seq<char>, Seq<char>)> {
    let (whole, fraction) = match text::first_index(s, '.') {
        Some(i) => (s.take(i), s.skip(i + 1)),
        None => (s, Seq::<char>::empty()),
    };
    if is_digits(whole) && is_digits(fraction) && whole.len() + fraction.len() > 0 {
        Some((whole, fraction))
    } else {
        None
    }
}

/// Digits with one sign before them at most.
pub open spec fn exponent(s: Seq<char>) -> Option<int> {
    if s.len() > 0 && s[0] == '-' {
        if s.len() > 1 && is_digits(s.skip(1)) {
            Some(-text::number_value(s.skip(1), 10))
        } else {
            None
        }
    } else if s.len() > 0 && s[0] == '+' {
        if s.len() > 1 && is_digits(s.skip(1)) {
            Some(text::number_value(s.skip(1), 10))
        } else {
            None
        }
    } else if s.len() > 0 && is_digits(s) {
        Some(text::number_value(s, 10))
    } else {
        None
    }
}

/// Where the exponent begins.
pub open spec fn exponent_mark(s: Seq<char>) -> Option<int> {
    match (text::first_index(s, 'e'), text::first_index(s, 'E')) {
        (Some(i), Some(j)) => Some(
            if i < j {
                i
            } else {
                j
            },
        ),
        (Some(i), None) => Some(i),
        (None, Some(j)) => Some(j),
        (None, None) => None,
    }
}

/// The number that a text without a sign spells, if it does.
pub open spec fn decimal(s: Seq<char>) -> Option<Decimal> {
    match exponent_mark(s) {
        None => match mantissa(s) {
            Some((whole, fraction)) => Some(Decimal { whole, fraction, exponent: 0 }),
            None => None,
        },
        Some(i) => match (mantissa(s.take(i)), exponent(s.skip(i + 1))) {
            (Some((whole, fraction)), Some(exponent)) => Some(
                Decimal { whole, fraction, exponent },
            ),
            _ => None,
        },
    }
}

/// Whether `digits * 10^scale` lies above `2^-150` and is at most `1 + 2^-24`:
/// then it is rounded to a number of single precision above zero and at most one.
pub open spec fn in_unit_range(digits: int, scale: int) -> bool {
    if scale >= 0 {
        digits > 0 && digits * pow(10, scale as nat) * 0x100_0000 <= 0x100_0001
    } else {
        digits * pow(2, 150) > pow(10, (-scale) as nat) && digits * 0x100_0000 <= 0x100_0001 * pow(
            10,
            (-scale) as nat,
        )
    }
}

/// Whether a text is a quality that accepts what it stands by.
pub open spec fn is_accepting(s: Seq<char>) -> bool {
    let unsigned = if s.len() > 0 && s[0] == '+' {
        s.skip(1)
    } else {
        s
    };
    match decimal(unsigned) {
        Some(number) => in_unit_range(
            text::number_value(number.whole + number.fraction, 10),
            number.exponent - number.fraction.len(),
        ),
        None => false,
    }
}

proof fn lemma_take_step(s: Seq<char>, k: int)
    requires
        0 <= k < s.len(),
    ensures
        text::number_value(s.take(k + 1), 10) == text::number_value(s.take(k), 10)
            * 10 + text::digit_value(s[k]),
{
    assert(s.take(k + 1).drop_last() =~= s.take(k));
}

proof fn lemma_seven_digits(s: Seq<char>, k: int)
    requires
        0 <= k,
        k + 7 <= s.len(),
    ensures
        text::number_value(s.take(k + 7), 10) == text::number_value(s.take(k), 10)
            * 10_000_000 + text::digit_value(s[k]) * 1_000_000 + text::digit_value(
            s[k + 1],
        ) * 100_000 + text::digit_value(s[k + 2]) * 10_000 + text::digit_value(
            s[k + 3],
        ) * 1_000 + text::digit_value(s[k + 4]) * 100 + text::digit_value(s[k + 5])
            * 10 + text::digit_value(s[k + 6]),
{
    lemma_take_step(s, k);
    lemma_take_step(s, k + 1);
    lemma_take_step(s, k + 2);
    lemma_take_step(s, k + 3);
    lemma_take_step(s, k + 4);
    lemma_take_step(s, k + 5);
    lemma_take_step(s, k + 6);
}

proof fn lemma_lower_digits()
    ensures
        LOWER_DIGITS@.len() == 105,
        is_digits(LOWER_DIGITS@),
        text::number_value(LOWER_DIGITS@, 10) == 700649232162408535461864791644958065640130970938257885878534141944895541342930300743319094181060791015625int,
{
    reveal_strlit(
        "700649232162408535461864791644958065640130970938257885878534141944895541342930300743319094181060791015625",
    );
    let s = LOWER_DIGITS@;
    assert(s.take(0) =~= Seq::<char>::empty());
    lemma_seven_digits(s, 0);
    assert(text::number_value(s.take(7), 10) == 7006492int);
    lemma_seven_digits(s, 7);
    assert(text::number_value(s.take(14), 10) == 70064923216240int);
    lemma_seven_digits(s, 14);
    assert(text::number_value(s.take(21), 10) == 700649232162408535461int);
    lemma_seven_digits(s, 21);
    assert(text::number_value(s.take(28), 10) == 7006492321624085354618647916int);
    lemma_seven_digits(s, 28);
    assert(text::number_value(s.take(35), 10) == 70064923216240853546186479164495806int);
    lemma_seven_digits(s, 35);
    assert(text::number_value(s.take(42), 10) == 700649232162408535461864791644958065640130int);
    lemma_seven_digits(s, 42);
    assert(text::number_value(s.take(49), 10) == 7006492321624085354618647916449580656401309709382int);
    lemma_seven_digits(s, 49);
    assert(text::number_value(s.take(56), 10) == 70064923216240853546186479164495806564013097093825788587int);
    lemma_seven_digits(s, 56);
    assert(text::number_value(s.take(63), 10) == 700649232162408535461864791644958065640130970938257885878534141int);
    lemma_seven_digits(s, 63);
    assert(text::number_value(s.take(70), 10) == 7006492321624085354618647916449580656401309709382578858785341419448955int);
    lemma_seven_digits(s, 70);
    assert(text::number_value(s.take(77), 10) == 70064923216240853546186479164495806564013097093825788587853414194489554134293int);
    lemma_seven_digits(s, 77);
    assert(text::number_value(s.take(84), 10) == 700649232162408535461864791644958065640130970938257885878534141944895541342930300743int);
    lemma_seven_digits(s, 84);
    assert(text::number_value(s.take(91), 10) == 7006492321624085354618647916449580656401309709382578858785341419448955413429303007433190941int);
    lemma_seven_digits(s, 91);
    assert(text::number_value(s.take(98), 10) == 70064923216240853546186479164495806564013097093825788587853414194489554134293030074331909418106079int);
    lemma_seven_digits(s, 98);
    assert(text::number_value(s.take(105), 10) == 700649232162408535461864791644958065640130970938257885878534141944895541342930300743319094181060791015625int);
    assert(s.take(105) =~= s);
}

proof fn lemma_pow_product(base: int, m: nat, n: nat, x: int, y: int)
    requires
        pow(base, m) == x,
        pow(base, n) == y,
    ensures
        pow(base, m + n) == x * y,
{
    vstd::arithmetic::power::lemma_pow_adds(base, m, n);
}

proof fn lemma_pow_literals()
    ensures
        pow(2, 24) == 0x100_0000,
        pow(5, 24) == 59604644775390625int,
        pow(2, 150) == 1427247692705959881058285969449495136382746624int,
        pow(5, 150) == 700649232162408535461864791644958065640130970938257885878534141944895541342930300743319094181060791015625int,
        pow(10, 45) == 1000000000000000000000000000000000000000000000int,
        pow(10, 46) == 10000000000000000000000000000000000000000000000int,
{
    assert(pow(2, 10) == 1_024) by {
        reveal_with_fuel(pow, 11);
    }
    assert(pow(5, 10) == 9_765_625) by {
        reveal_with_fuel(pow, 11);
    }
    assert(pow(2, 4) == 16 && pow(5, 4) == 625) by {
        reveal_with_fuel(pow, 5);
    }
    assert(pow(10, 5) == 100_000 && pow(10, 1) == 10) by {
        reveal_with_fuel(pow, 6);
    }
    lemma_pow_product(2, 10, 10, 1024int, 1024int);
    lemma_pow_product(2, 20, 4, 1048576int, 16int);
    lemma_pow_product(2, 20, 20, 1048576int, 1048576int);
    lemma_pow_product(2, 40, 40, 1099511627776int, 1099511627776int);
    lemma_pow_product(2, 80, 40, 1208925819614629174706176int, 1099511627776int);
    lemma_pow_product(2, 120, 20, 1329227995784915872903807060280344576int, 1048576int);
    lemma_pow_product(2, 140, 10, 1393796574908163946345982392040522594123776int, 1024int);
    lemma_pow_product(5, 10, 10, 9765625int, 9765625int);
    lemma_pow_product(5, 20, 4, 95367431640625int, 625int);
    lemma_pow_product(5, 20, 20, 95367431640625int, 95367431640625int);
    lemma_pow_product(5, 40, 40, 9094947017729282379150390625int, 9094947017729282379150390625int);
    lemma_pow_product(5, 80, 40, 82718061255302767487140869206996285356581211090087890625int, 9094947017729282379150390625int);
    lemma_pow_product(5, 120, 20, 752316384526264005099991383822237233803945956334136013765601092018187046051025390625int, 95367431640625int);
    lemma_pow_product(5, 140, 10, 71746481373430634031294954664443705921549411424077607513961896135157303433516062796115875244140625int, 9765625int);
    lemma_pow_product(10, 5, 5, 100000int, 100000int);
    lemma_pow_product(10, 10, 10, 10000000000int, 10000000000int);
    lemma_pow_product(10, 20, 20, 100000000000000000000int, 100000000000000000000int);
    lemma_pow_product(10, 40, 5, 10000000000000000000000000000000000000000int, 100000int);
    lemma_pow_product(10, 45, 1, 1000000000000000000000000000000000000000000000int, 10int);
}

/// Digits of a row bound its value; a row that starts with another digit than
/// zero is no smaller than its length says.
proof fn lemma_value_bounds(s: Seq<char>)
    requires
        is_digits(s),
    ensures
        0 <= text::number_value(s, 10) < pow(10, s.len()),
        s.len() > 0 && s[0] != '0' ==> pow(10, (s.len() - 1) as nat) <= text::number_value(
            s,
            10,
        ),
    decreases s.len(),
{
    vstd::arithmetic::power::lemma_pow0(10);
    if s.len() > 0 {
        let front = s.drop_last();
        assert(forall|i: int| 0 <= i < front.len() ==> front[i] == s[i]);
        assert forall|i: int| 0 <= i < front.len() implies text::is_digit(
            #[trigger] front[i],
        ) by {
            assert(text::is_digit(s[i]));
        }
        lemma_value_bounds(front);
        assert(text::is_digit(s.last()));
        reveal(pow);
        if s.len() > 1 {
            assert(front[0] == s[0]);
            assert(pow(10, s.len()) == 10 * pow(10, front.len()));
            assert(pow(10, front.len()) == 10 * pow(10, (front.len() - 1) as nat));
        } else {
            assert(front =~= Seq::<char>::empty());
            assert(pow(10, 1) == 10 * pow(10, 0));
        }
    }
}

proof fn lemma_pow10_positive(n: nat)
    ensures
        pow(10, n) >= 1,
    decreases n,
{
    reveal(pow);
    if n > 0 {
        lemma_pow10_positive((n - 1) as nat);
    }
}

proof fn lemma_pow10_grows(m: nat, n: nat)
    requires
        m <= n,
    ensures
        pow(10, m) <= pow(10, n),
        m < n ==> 10 * pow(10, m) <= pow(10, n),
    decreases n,
{
    reveal(pow);
    lemma_pow10_positive(m);
    if m < n {
        lemma_pow10_grows(m, (n - 1) as nat);
    }
}

/// A number of ten or more is out of range.
proof fn lemma_large(digits: int, len: nat, scale: int)
    requires
        len > 0,
        pow(10, (len - 1) as nat) <= digits,
        len + scale >= 2,
    ensures
        !in_unit_range(digits, scale),
{
    let below = pow(10, (len - 1) as nat);
    lemma_pow10_positive((len - 1) as nat);
    if scale >= 0 {
        let factor = pow(10, scale as nat);
        vstd::arithmetic::power::lemma_pow_adds(10, (len - 1) as nat, scale as nat);
        lemma_pow10_positive(scale as nat);
        lemma_pow10_grows(1, (len - 1 + scale) as nat);
        assert(pow(10, 1) == 10) by {
            reveal_with_fuel(pow, 2);
        }
        assert(digits * factor >= below * factor) by (nonlinear_arith)
            requires
                digits >= below,
                factor >= 1,
        ;
        assert(digits * factor * 0x100_0000 > 0x100_0001) by (nonlinear_arith)
            requires
                digits * factor >= 10,
        ;
    } else {
        let factor = pow(10, (-scale) as nat);
        lemma_pow10_positive((-scale) as nat);
        lemma_pow10_grows((-scale) as nat, (len - 1) as nat);
        assert(digits >= 10 * factor);
        assert(digits * 0x100_0000 > 0x100_0001 * factor) by (nonlinear_arith)
            requires
                digits >= 10 * factor,
                factor >= 1,
        ;
    }
}

/// A number below one is in range where it is not tiny.
proof fn lemma_small(digits: int, len: nat, scale: int)
    requires
        len > 0,
        pow(10, (len - 1) as nat) <= digits < pow(10, len),
        -45 < len + scale <= 0,
    ensures
        in_unit_range(digits, scale),
{
    let factor = pow(10, (-scale) as nat);
    let below = pow(10, (len - 1) as nat);
    lemma_pow10_grows(len, (-scale) as nat);
    lemma_pow10_positive((-scale) as nat);
    lemma_pow10_positive((len - 1) as nat);
    assert(digits * 0x100_0000 <= 0x100_0001 * factor) by (nonlinear_arith)
        requires
            digits < factor,
            factor >= 1,
    ;
    lemma_pow_literals();
    vstd::arithmetic::power::lemma_pow_adds(10, (len - 1) as nat, 45);
    lemma_pow10_grows((-scale) as nat, (len - 1 + 45) as nat);
    assert(factor <= below * pow(10, 45));
    assert(digits * pow(2, 150) > factor) by (nonlinear_arith)
        requires
            factor <= below * pow(10, 45),
            digits >= below,
            below >= 1,
            pow(2, 150) > pow(10, 45),
            pow(10, 45) > 0,
    ;
}

/// A number below `10^-46` is out of range.
proof fn lemma_tiny(digits: int, len: nat, scale: int)
    requires
        len > 0,
        pow(10, (len - 1) as nat) <= digits < pow(10, len),
        len + scale < -45,
    ensures
        !in_unit_range(digits, scale),
{
    let factor = pow(10, (-scale) as nat);
    lemma_pow10_positive((len - 1) as nat);
    lemma_pow_literals();
    vstd::arithmetic::power::lemma_pow_adds(10, len, 46);
    lemma_pow10_grows((len + 46) as nat, (-scale) as nat);
    assert(digits * pow(2, 150) <= factor) by (nonlinear_arith)
        requires
            factor >= pow(10, len) * pow(10, 46),
            1 <= digits < pow(10, len),
            pow(2, 150) < pow(10, 46),
            pow(2, 150) > 0,
    ;
}

/// A number between one and ten is in range up to the upper bound.
proof fn lemma_near_one(digits: int, len: nat, scale: int)
    requires
        len > 0,
        pow(10, (len - 1) as nat) <= digits < pow(10, len),
        len + scale == 1,
    ensures
        in_unit_range(digits, scale) <==> digits * pow(10, 24)
            <= 1000000059604644775390625int * pow(10, (len - 1) as nat),
{
    let factor = pow(10, (len - 1) as nat);
    lemma_pow10_positive((len - 1) as nat);
    lemma_pow_literals();
    vstd::arithmetic::power::lemma_pow_distributes(2, 5, 24);
    let five = pow(5, 24);
    assert(pow(10, 24) == 0x100_0000 * five);
    assert(1000000059604644775390625int == 0x100_0001 * five);
    assert(digits * 0x100_0000 <= 0x100_0001 * factor <==> digits * pow(10, 24)
        <= 1000000059604644775390625int * factor) by (nonlinear_arith)
        requires
            pow(10, 24) == 0x100_0000 * five,
            1000000059604644775390625int == 0x100_0001 * five,
            five == 59604644775390625int,
    ;
    if scale == 0 {
        vstd::arithmetic::power::lemma_pow0(10);
        assert(digits * pow(10, 0) * 0x100_0000 == digits * 0x100_0000);
    } else {
        assert(digits * pow(2, 150) > factor) by (nonlinear_arith)
            requires
                digits >= factor,
                factor >= 1,
                pow(2, 150) > 1,
        ;
    }
}

/// A number between `10^-46` and `10^-45` is in range above the lower bound.
proof fn lemma_near_zero(digits: int, len: nat, scale: int)
    requires
        len > 0,
        pow(10, (len - 1) as nat) <= digits < pow(10, len),
        len + scale == -45,
    ensures
        in_unit_range(digits, scale) <==> digits * pow(10, 150) > pow(5, 150) * pow(
            10,
            (len + 45) as nat,
        ),
{
    let factor = pow(10, (len + 45) as nat);
    lemma_pow10_positive((len + 45) as nat);
    lemma_pow10_grows(len, (len + 45) as nat);
    lemma_pow_literals();
    vstd::arithmetic::power::lemma_pow_distributes(2, 5, 150);
    let two = pow(2, 150);
    let five = pow(5, 150);
    assert(pow(10, 150) == two * five);
    assert(digits * two > factor <==> digits * pow(10, 150) > five * factor) by (nonlinear_arith)
        requires
            pow(10, 150) == two * five,
            five > 0,
    ;
    assert(digits * 0x100_0000 <= 0x100_0001 * factor) by (nonlinear_arith)
        requires
            digits < factor,
            factor >= 1,
    ;
}

/// How two numbers compare.
#[derive(Clone, Copy, Debug, PartialEq, Eq, Structural)]
enum Order {
    Below,
    Same,
    Above,
}

/// A row of digits with zeros behind it.
spec fn padded(s: Seq<char>, len: nat) -> Seq<char> {
    Seq::new(
        len,
        |i: int|
            if i < s.len() {
                s[i]
            } else {
                '0'
            },
    )
}

proof fn lemma_padded_value(s: Seq<char>, len: nat)
    requires
        s.len() <= len,
    ensures
        text::number_value(padded(s, len), 10) == text::number_value(s, 10) * pow(
            10,
            (len - s.len()) as nat,
        ),
    decreases len,
{
    reveal(pow);
    if len == s.len() {
        assert(padded(s, len) =~= s);
    } else {
        let shorter = (len - 1) as nat;
        lemma_padded_value(s, shorter);
        assert(padded(s, len).drop_last() =~= padded(s, shorter));
        assert(padded(s, len).last() == '0');
        let value = text::number_value(s, 10);
        let power = pow(10, (shorter - s.len()) as nat);
        assert(value * power * 10 == value * (10 * power)) by (nonlinear_arith);
    }
}

fn digit_at(s: &[char], i: usize) -> (c: char)
    ensures
        c == if i < s@.len() {
            s@[i as int]
        } else {
            '0'
        },
{
    if i < s.len() {
        s[i]
    } else {
        '0'
    }
}

/// Compares two rows of digits as if zeros stood behind the shorter one.
fn compare_rows(a: &[char], b: &[char], len: usize) -> (order: Order)
    requires
        is_digits(a@),
        is_digits(b@),
        a@.len() <= len,
        b@.len() <= len,
    ensures
        ({
            let left = text::number_value(a@, 10) * pow(10, (len - a@.len()) as nat);
            let right = text::number_value(b@, 10) * pow(10, (len - b@.len()) as nat);
            match order {
                Order::Below => left < right,
                Order::Same => left == right,
                Order::Above => left > right,
            }
        }),
{
    let ghost left = padded(a@, len as nat);
    let ghost right = padded(b@, len as nat);
    proof {
        lemma_padded_value(a@, len as nat);
        lemma_padded_value(b@, len as nat);
    }
    let mut order = Order::Same;
    assert(left.take(0) =~= right.take(0));
    for i in 0..len
        invariant
            is_digits(a@),
            is_digits(b@),
            left == padded(a@, len as nat),
            right == padded(b@, len as nat),
            match order {
                Order::Below => text::number_value(left.take(i as int), 10)
                    < text::number_value(right.take(i as int), 10),
                Order::Same => text::number_value(left.take(i as int), 10)
                    == text::number_value(right.take(i as int), 10),
                Order::Above => text::number_value(left.take(i as int), 10)
                    > text::number_value(right.take(i as int), 10),
            },
    {
        proof {
            lemma_take_step(left, i as int);
            lemma_take_step(right, i as int);
        }
        let x = digit_at(a, i);
        let y = digit_at(b, i);
        assert(text::is_digit(x));
        assert(text::is_digit(y));
        if order == Order::Same {
            if x < y {
                order = Order::Below;
            } else if x > y {
                order = Order::Above;
            }
        }
    }
    assert(left.take(len as int) =~= left);
    assert(right.take(len as int) =~= right);
    order
}

fn all_digits(s: &[char]) -> (r: bool)
    ensures
        r == is_digits(s@),
{
    for i in 0..s.len()
        invariant
            forall|j: int| 0 <= j < i ==> text::is_digit(#[trigger] s@[j]),
    {
        if !text::char_is_digit(s[i]) {
            return false;
        }
    }
    true
}

/// The value of a row of digits, or the cap where it is no less.
fn capped_value(s: &[char]) -> (r: i128)
    requires
        is_digits(s@),
    ensures
        0 <= r <= CAP,
        r < CAP ==> r == text::number_value(s@, 10),
        r == CAP ==> r <= text::number_value(s@, 10),
{
    let mut value: i128 = 0;
    for i in 0..s.len()
        invariant
            is_digits(s@),
            0 <= value < CAP,
            value == text::number_value(s@.take(i as int), 10),
    {
        proof {
            lemma_take_step(s@, i as int);
        }
        assert(text::is_digit(s@[i as int]));
        value = value * 10 + char_digit_value(s[i]) as i128;
        if value >= CAP {
            proof {
                text::lemma_number_value_grows(s@, 10, i + 1);
            }
            return CAP;
        }
    }
    assert(s@.take(s@.len() as int) =~= s@);
    value
}

proof fn lemma_leading_zeros(s: Seq<char>, zeros: int)
    requires
        0 <= zeros <= s.len(),
        forall|i: int| 0 <= i < zeros ==> #[trigger] s[i] == '0',
    ensures
        text::number_value(s, 10) == text::number_value(s.skip(zeros), 10),
    decreases s.len(),
{
    if s.len() == zeros {
        assert(s.skip(zeros) =~= Seq::<char>::empty());
        if s.len() > 0 {
            lemma_leading_zeros(s.drop_last(), zeros - 1);
            assert(s.drop_last().skip(zeros - 1) =~= Seq::<char>::empty());
        }
    } else {
        lemma_leading_zeros(s.drop_last(), zeros);
        assert(s.skip(zeros).drop_last() =~= s.drop_last().skip(zeros));
    }
}

/// Comparing does not depend on a common power of ten.
proof fn lemma_common_power(x: int, y: int, a: nat, b: nat, k: nat)
    ensures
        x * pow(10, a) <= y * pow(10, b) <==> x * pow(10, a + k) <= y * pow(10, b + k),
{
    vstd::arithmetic::power::lemma_pow_adds(10, a, k);
    vstd::arithmetic::power::lemma_pow_adds(10, b, k);
    lemma_pow10_positive(k);
    let p = pow(10, a);
    let q = pow(10, b);
    let r = pow(10, k);
    assert(x * p <= y * q <==> x * (p * r) <= y * (q * r)) by (nonlinear_arith)
        requires
            r >= 1,
    ;
}

proof fn lemma_upper_digits()
    ensures
        UPPER_DIGITS@.len() == 25,
        is_digits(UPPER_DIGITS@),
        text::number_value(UPPER_DIGITS@, 10) == 1000000059604644775390625int,
{
    reveal_strlit("1000000059604644775390625");
    let s = UPPER_DIGITS@;
    assert(s.take(0) =~= Seq::<char>::empty());
    lemma_seven_digits(s, 0);
    lemma_seven_digits(s, 7);
    lemma_seven_digits(s, 14);
    lemma_take_step(s, 21);
    lemma_take_step(s, 22);
    lemma_take_step(s, 23);
    lemma_take_step(s, 24);
    assert(s.take(25) =~= s);
}

/// An exponent, exact below the cap and known to lie beyond it otherwise.
spec fn is_capped(capped: i128, exact: int) -> bool {
    &&& -CAP <= capped <= CAP
    &&& -CAP < capped < CAP ==> capped == exact
    &&& capped == CAP ==> exact >= CAP
    &&& capped == -CAP ==> exact <= -CAP
}

/// The number of digits that both rows have when filled up.
fn longer(a: usize, b: usize) -> (r: usize)
    ensures
        r == if a >= b {
            a
        } else {
            b
        },
{
    if a >= b {
        a
    } else {
        b
    }
}

fn at_most_upper(row: &[char]) -> (r: bool)
    requires
        is_digits(row@),
        row@.len() > 0,
    ensures
        r == (text::number_value(row@, 10) * pow(10, 24) <= 1000000059604644775390625int
            * pow(10, (row@.len() - 1) as nat)),
{
    let upper = text::chars_of(UPPER_DIGITS);
    proof {
        lemma_upper_digits();
    }
    let len = longer(row.len(), 25);
    proof {
        lemma_common_power(
            text::number_value(row@, 10),
            1000000059604644775390625int,
            (len - row@.len()) as nat,
            (len - 25) as nat,
            (row@.len() + 24 - len) as nat,
        );
    }
    match compare_rows(row, &upper, len) {
        Order::Above => false,
        _ => true,
    }
}

fn above_lower(row: &[char]) -> (r: bool)
    requires
        is_digits(row@),
        row@.len() > 0,
    ensures
        r == (text::number_value(row@, 10) * pow(10, 150) > pow(5, 150) * pow(
            10,
            (row@.len() + 45) as nat,
        )),
{
    let lower = text::chars_of(LOWER_DIGITS);
    proof {
        lemma_lower_digits();
        lemma_pow_literals();
    }
    let len = longer(row.len(), 105);
    proof {
        lemma_common_power(
            text::number_value(row@, 10),
            pow(5, 150),
            (len - row@.len()) as nat,
            (len - 105) as nat,
            (row@.len() + 150 - len) as nat,
        );
    }
    match compare_rows(row, &lower, len) {
        Order::Above => true,
        _ => false,
    }
}

/// Whether the digits, with an exponent and a point before the last so many of
/// them, are in range.
fn row_in_range(
    digits: &[char],
    fraction_len: usize,
    exponent: i128,
    Ghost(exact): Ghost<int>,
) -> (r: bool)
    requires
        is_digits(digits@),
        is_capped(exponent, exact),
    ensures
        r == in_unit_range(text::number_value(digits@, 10), exact - fraction_len),
{
    let ghost value = text::number_value(digits@, 10);
    let ghost scale = exact - fraction_len;
    let mut zeros: usize = 0;
    while zeros < digits.len() && digits[zeros] == '0'
        invariant
            zeros <= digits@.len(),
            forall|i: int| 0 <= i < zeros ==> #[trigger] digits@[i] == '0',
        decreases digits@.len() - zeros,
    {
        zeros = zeros + 1;
    }
    proof {
        lemma_leading_zeros(digits@, zeros as int);
    }
    if zeros == digits.len() {
        proof {
            assert(digits@.skip(zeros as int) =~= Seq::<char>::empty());
            if scale < 0 {
                lemma_pow10_positive((-scale) as nat);
            }
        }
        return false;
    }
    let row = slice_subrange(digits, zeros, digits.len());
    assert(row@ =~= digits@.skip(zeros as int));
    assert forall|i: int| 0 <= i < row@.len() implies text::is_digit(#[trigger] row@[i]) by {
        assert(text::is_digit(digits@[zeros + i]));
    }
    proof {
        lemma_value_bounds(row@);
    }
    let position: i128 = row.len() as i128 + exponent - fraction_len as i128;
    let ghost len = row@.len();
    if position >= 2 {
        proof {
            lemma_large(value, len, scale);
        }
        return false;
    }
    if position < -45 {
        proof {
            lemma_tiny(value, len, scale);
        }
        return false;
    }
    assert(len + scale == position);
    if position == 1 {
        proof {
            lemma_near_one(value, len, scale);
        }
        at_most_upper(row)
    } else if position == -45 {
        proof {
            lemma_near_zero(value, len, scale);
        }
        above_lower(row)
    } else {
        proof {
            lemma_small(value, len, scale);
        }
        true
    }
}

/// The exponent that a text spells, capped.
fn parse_exponent(s: &[char]) -> (r: Option<i128>)
    ensures
        match r {
            Some(capped) => exponent(s@) is Some && is_capped(capped, exponent(s@)->0),
            None => exponent(s@) is None,
        },
{
    let len = s.len();
    if len == 0 {
        return None;
    }
    let signed = s[0] == '-' || s[0] == '+';
    let digits = if signed {
        slice_subrange(s, 1, len)
    } else {
        s
    };
    assert(signed ==> digits@ =~= s@.skip(1));
    if digits.len() == 0 || !all_digits(digits) {
        return None;
    }
    let value = capped_value(digits);
    if s[0] == '-' {
        Some(-value)
    } else {
        Some(value)
    }
}

fn find_exponent(s: &[char]) -> (r: Option<usize>)
    ensures
        match r {
            Some(i) => exponent_mark(s@) == Some(i as int) && i < s@.len(),
            None => exponent_mark(s@) is None,
        },
{
    proof {
        text::lemma_first_index(s@, 'e');
        text::lemma_first_index(s@, 'E');
    }
    match (find_char(s, 'e'), find_char(s, 'E')) {
        (Some(i), Some(j)) => Some(
            if i < j {
                i
            } else {
                j
            },
        ),
        (Some(i), None) => Some(i),
        (None, Some(j)) => Some(j),
        (None, None) => None,
    }
}

/// The digits of a mantissa without its point, and how many stand behind it.
fn parse_mantissa(s: &[char]) -> (r: Option<(Vec<char>, usize)>)
    ensures
        match r {
            Some((digits, fraction_len)) => {
                &&& mantissa(s@) matches Some((whole, fraction))
                &&& digits@ == whole + fraction
                &&& is_digits(digits@)
                &&& fraction_len == fraction.len()
            },
            None => mantissa(s@) is None,
        },
{
    proof {
        text::lemma_first_index(s@, '.');
    }
    let len = s.len();
    let (whole, fraction) = match find_char(s, '.') {
        Some(i) => (slice_subrange(s, 0, i), slice_subrange(s, i + 1, len)),
        None => (s, slice_subrange(s, len, len)),
    };
    assert(match text::first_index(s@, '.') {
        Some(i) => whole@ =~= s@.take(i) && fraction@ =~= s@.skip(i + 1),
        None => whole@ =~= s@ && fraction@ =~= Seq::<char>::empty(),
    });
    if !all_digits(whole) || !all_digits(fraction) || (whole.len() == 0 && fraction.len() == 0) {
        return None;
    }
    let mut digits = vstd::slice::slice_to_vec(whole);
    for i in 0..fraction.len()
        invariant
            digits@ == whole@ + fraction@.take(i as int),
    {
        digits.push(fraction[i]);
        assert(fraction@.take(i + 1) =~= fraction@.take(i as int).push(fraction@[i as int]));
    }
    assert(fraction@.take(fraction@.len() as int) =~= fraction@);
    assert forall|i: int| 0 <= i < digits@.len() implies text::is_digit(
        #[trigger] digits@[i],
    ) by {
        if i < whole@.len() {
            assert(text::is_digit(whole@[i]));
        } else {
            assert(text::is_digit(fraction@[i - whole@.len()]));
        }
    }
    Some((digits, fraction.len()))
}

/// Whether a text is a quality that accepts what it stands by.
pub fn accepts(text: &[char]) -> (r: bool)
    ensures
        r == is_accepting(text@),
{
    let len = text.len();
    let s = if len > 0 && text[0] == '+' {
        slice_subrange(text, 1, len)
    } else {
        text
    };
    assert(text@.len() > 0 && text@[0] == '+' ==> s@ =~= text@.skip(1));
    let end = s.len();
    match find_exponent(s) {
        None => match parse_mantissa(s) {
            Some((digits, fraction_len)) => row_in_range(&digits, fraction_len, 0, Ghost(0)),
            None => false,
        },
        Some(i) => {
            let before = slice_subrange(s, 0, i);
            let after = slice_subrange(s, i + 1, end);
            assert(before@ =~= s@.take(i as int));
            assert(after@ =~= s@.skip(i + 1));
            match (parse_mantissa(before), parse_exponent(after)) {
                (Some((digits, fraction_len)), Some(capped)) => row_in_range(
                    &digits,
                    fraction_len,
                    capped,
                    Ghost(exponent(after@)->0),
                ),
                _ => false,
            }
        },
    }
}

proof fn lemma_value_of_both(a: Seq<char>, b: Seq<char>)
    ensures
        text::number_value(a + b, 10) == text::number_value(a, 10) * pow(10, b.len())
            + text::number_value(b, 10),
    decreases b.len(),
{
    reveal(pow);
    if b.len() == 0 {
        assert(a + b =~= a);
    } else {
        let front = b.drop_last();
        lemma_value_of_both(a, front);
        assert((a + b).drop_last() =~= a + front);
        let x = text::number_value(a, 10);
        let p = pow(10, front.len());
        assert(pow(10, b.len()) == 10 * p);
        assert(x * p * 10 == x * (10 * p)) by (nonlinear_arith);
    }
}

/// The number that a text of digits with a point among them spells.
proof fn lemma_plain_decimal(s: Seq<char>, point: int)
    requires
        0 <= point < s.len(),
        s.len() > 1,
        s[point] == '.',
        forall|i: int| 0 <= i < s.len() && i != point ==> text::is_digit(#[trigger] s[i]),
    ensures
        is_accepting(s) <==> in_unit_range(
            text::number_value(s.take(point) + s.skip(point + 1), 10),
            -(s.len() - point - 1),
        ),
        is_digits(s.take(point)),
        is_digits(s.skip(point + 1)),
{
    text::lemma_first_index(s, 'e');
    text::lemma_first_index(s, 'E');
    text::lemma_first_index_unique(s, '.', point);
    assert forall|i: int| 0 <= i < s.len() implies s[i] != 'e' && s[i] != 'E' by {
        if i != point {
            assert(text::is_digit(s[i]));
        }
    }
    let whole = s.take(point);
    let fraction = s.skip(point + 1);
    assert forall|i: int| 0 <= i < whole.len() implies text::is_digit(#[trigger] whole[i]) by {
        assert(text::is_digit(s[i]));
    }
    assert forall|i: int| 0 <= i < fraction.len() implies text::is_digit(#[trigger] fraction[i]) by {
        assert(text::is_digit(s[point + 1 + i]));
    }
    if s[0] == '+' {
        assert(point != 0 ==> text::is_digit(s[0]));
    }
    assert(exponent_mark(s) is None);
    assert(mantissa(s) == Some((whole, fraction)));
}

proof fn lemma_digit_row(s: Seq<char>)
    requires
        s.len() > 0,
        is_digits(s),
    ensures
        is_accepting(s) <==> in_unit_range(text::number_value(s, 10), 0),
{
    text::lemma_first_index(s, 'e');
    text::lemma_first_index(s, 'E');
    text::lemma_first_index(s, '.');
    assert forall|i: int| 0 <= i < s.len() implies s[i] != 'e' && s[i] != 'E' && s[i] != '.' by {
        assert(text::is_digit(s[i]));
    }
    assert(text::is_digit(s[0]));
    assert(mantissa(s) == Some((s, Seq::<char>::empty())));
    assert(s + Seq::<char>::empty() =~= s);
}

/// The first place in a row of digits that is not zero.
proof fn first_nonzero(s: Seq<char>, at: int) -> (k: int)
    requires
        0 <= at < s.len(),
        s[at] != '0',
    ensures
        0 <= k <= at,
        s[k] != '0',
        forall|i: int| 0 <= i < k ==> #[trigger] s[i] == '0',
    decreases at,
{
    if exists|i: int| 0 <= i < at && s[i] != '0' {
        let i = choose|i: int| 0 <= i < at && s[i] != '0';
        first_nonzero(s, i)
    } else {
        at
    }
}

proof fn lemma_row_bounds(s: Seq<char>, k: int)
    requires
        is_digits(s),
        0 <= k < s.len(),
        s[k] != '0',
        forall|i: int| 0 <= i < k ==> #[trigger] s[i] == '0',
    ensures
        pow(10, (s.len() - k - 1) as nat) <= text::number_value(s, 10) < pow(
            10,
            (s.len() - k) as nat,
        ),
{
    let row = s.skip(k);
    lemma_leading_zeros(s, k);
    assert forall|i: int| 0 <= i < row.len() implies text::is_digit(#[trigger] row[i]) by {
        assert(text::is_digit(s[k + i]));
    }
    assert(row[0] == s[k]);
    lemma_value_bounds(row);
}

/// A quality of nothing before the point and some digit above zero soon behind it is
/// accepted, one of zeros alone is not.
pub proof fn law_fractions_are_accepted(text: &[char], point: int, at: int, r: bool)
    requires
        call_ensures(accepts, (text,), r),
        0 <= point < text@.len(),
        text@.len() > 1,
        text@[point] == '.',
        forall|i: int|
            0 <= i < text@.len() && i != point ==> '0' <= #[trigger] text@[i] && text@[i] <= '9',
        forall|i: int| 0 <= i < point ==> #[trigger] text@[i] == '0',
    ensures
        point < at < text@.len() && at <= point + 45 && text@[at] != '0' ==> r,
        (forall|i: int| point < i < text@.len() ==> #[trigger] text@[i] == '0') ==> !r,
{
    let s = text@;
    let n = s.len() - point - 1;
    assert forall|i: int| 0 <= i < s.len() && i != point implies text::is_digit(#[trigger] s[i]) by {
        assert('0' <= s[i]);
    }
    lemma_plain_decimal(s, point);
    let whole = s.take(point);
    let fraction = s.skip(point + 1);
    let row = whole + fraction;
    assert forall|i: int| 0 <= i < row.len() implies text::is_digit(#[trigger] row[i]) by {
        if i < point {
            assert(text::is_digit(s[i]));
        } else {
            assert(text::is_digit(s[i + 1]));
        }
    }
    assert forall|i: int| 0 <= i < point implies #[trigger] row[i] == '0' by {
        assert(s[i] == '0');
    }
    if point < at < s.len() && at <= point + 45 && s[at] != '0' {
        assert(row[at - 1] == s[at]);
        let k = first_nonzero(row, at - 1);
        assert(k >= point) by {
            if k < point {
                assert(row[k] == '0');
            }
        }
        lemma_row_bounds(row, k);
        lemma_small(text::number_value(row, 10), (row.len() - k) as nat, -n);
    }
    if forall|i: int| point < i < s.len() ==> #[trigger] s[i] == '0' {
        assert forall|i: int| 0 <= i < row.len() implies #[trigger] row[i] == '0' by {
            if i >= point {
                assert(row[i] == s[i + 1]);
            }
        }
        lemma_leading_zeros(row, row.len() as int);
        assert(row.skip(row.len() as int) =~= Seq::<char>::empty());
        assert(text::number_value(row, 10) == 0);
        if n > 0 {
            lemma_pow10_positive(n as nat);
        }
    }
}

/// A quality of one is accepted, with any zeros behind the point; one that is larger by
/// a ten-millionth or more is not.
pub proof fn law_one_is_the_largest_quality(text: &[char], at: int, r: bool)
    requires
        call_ensures(accepts, (text,), r),
        text@.len() >= 2,
        text@[0] == '1',
        text@[1] == '.',
        forall|i: int| 2 <= i < text@.len() ==> '0' <= #[trigger] text@[i] && text@[i] <= '9',
    ensures
        (forall|i: int| 2 <= i < text@.len() ==> #[trigger] text@[i] == '0') ==> r,
        2 <= at < text@.len() && at <= 8 && text@[at] != '0' ==> !r,
{
    let s = text@;
    let n = (s.len() - 2) as nat;
    assert forall|i: int| 0 <= i < s.len() && i != 1 implies text::is_digit(#[trigger] s[i]) by {
        if i >= 2 {
            assert('0' <= s[i]);
        }
    }
    lemma_plain_decimal(s, 1);
    let whole = s.take(1);
    let fraction = s.skip(2);
    let row = whole + fraction;
    assert(whole =~= seq!['1']);
    assert(text::number_value(whole, 10) == 1) by {
        reveal_with_fuel(text::number_value, 2);
        assert(whole.drop_last() =~= Seq::<char>::empty());
    }
    lemma_value_of_both(whole, fraction);
    let unit = pow(10, n);
    let value = text::number_value(row, 10);
    let rest = text::number_value(fraction, 10);
    assert(value == unit + rest);
    assert forall|i: int| 0 <= i < row.len() implies text::is_digit(#[trigger] row[i]) by {
        if i > 0 {
            assert(row[i] == s[i + 1]);
            assert(text::is_digit(s[i + 1]));
        }
    }
    lemma_row_bounds(row, 0);
    lemma_near_one(value, row.len(), -(n as int));
    lemma_pow10_positive(n);
    assert(pow(10, 24) == 1_000_000_000_000_000_000_000_000int) by {
        assert(pow(10, 6) == 1_000_000) by {
            reveal_with_fuel(pow, 7);
        }
        lemma_pow_product(10, 6, 6, 1_000_000int, 1_000_000int);
        lemma_pow_product(10, 12, 12, 1_000_000_000_000int, 1_000_000_000_000int);
    }
    if forall|i: int| 2 <= i < s.len() ==> #[trigger] s[i] == '0' {
        assert forall|i: int| 0 <= i < fraction.len() implies #[trigger] fraction[i] == '0' by {
            assert(fraction[i] == s[i + 2]);
        }
        lemma_leading_zeros(fraction, fraction.len() as int);
        assert(fraction.skip(fraction.len() as int) =~= Seq::<char>::empty());
        assert(rest == 0);
        assert(value * pow(10, 24) <= 1000000059604644775390625int * unit) by (nonlinear_arith)
            requires
                value == unit,
                unit >= 1,
                pow(10, 24) == 1_000_000_000_000_000_000_000_000int,
        ;
    }
    if 2 <= at < s.len() && at <= 8 && s[at] != '0' {
        assert(fraction[at - 2] == s[at]);
        let k = first_nonzero(fraction, at - 2);
        lemma_row_bounds(fraction, k);
        let low = pow(10, (n - k - 1) as nat);
        vstd::arithmetic::power::lemma_pow_adds(10, (n - k - 1) as nat, (k + 1) as nat);
        lemma_pow10_grows((k + 1) as nat, 7);
        lemma_pow10_positive((k + 1) as nat);
        lemma_pow10_positive((n - k - 1) as nat);
        assert(pow(10, 7) == 10_000_000) by {
            reveal_with_fuel(pow, 8);
        }
        let few = pow(10, (k + 1) as nat);
        assert(rest * 10_000_000 >= unit) by (nonlinear_arith)
            requires
                rest >= low,
                unit == low * few,
                1 <= few <= 10_000_000,
                low >= 1,
        ;
        assert(value * pow(10, 24) > 1000000059604644775390625int * unit) by (nonlinear_arith)
            requires
                value == unit + rest,
                rest * 10_000_000 >= unit,
                unit >= 1,
                pow(10, 24) == 1_000_000_000_000_000_000_000_000int,
        ;
    }
}

/// A quality of two or more before the point is not accepted, whatever stands behind it.
pub proof fn law_larger_qualities_are_refused(text: &[char], point: int, r: bool)
    requires
        call_ensures(accepts, (text,), r),
        0 < point < text@.len(),
        text@[point] == '.',
        forall|i: int|
            0 <= i < text@.len() && i != point ==> '0' <= #[trigger] text@[i] && text@[i] <= '9',
        text@[0] != '0',
        point >= 2 || text@[0] >= '2',
    ensures
        !r,
{
    let s = text@;
    let n = (s.len() - point - 1) as nat;
    assert forall|i: int| 0 <= i < s.len() && i != point implies text::is_digit(#[trigger] s[i]) by {
        assert('0' <= s[i]);
    }
    lemma_plain_decimal(s, point);
    let whole = s.take(point);
    let fraction = s.skip(point + 1);
    let row = whole + fraction;
    assert forall|i: int| 0 <= i < row.len() implies text::is_digit(#[trigger] row[i]) by {
        if i < point {
            assert(text::is_digit(s[i]));
        } else {
            assert(text::is_digit(s[i + 1]));
        }
    }
    assert(row[0] == s[0]);
    lemma_row_bounds(row, 0);
    let value = text::number_value(row, 10);
    if point >= 2 {
        lemma_large(value, row.len(), -(n as int));
    } else {
        assert(whole =~= seq![s[0]]);
        assert(text::number_value(whole, 10) == text::digit_value(s[0])) by {
            reveal_with_fuel(text::number_value, 2);
            assert(whole.drop_last() =~= Seq::<char>::empty());
        }
        lemma_value_of_both(whole, fraction);
        lemma_value_bounds(fraction);
        lemma_pow10_positive(n);
        let unit = pow(10, n);
        let first = text::digit_value(s[0]);
        assert(value >= 2 * unit) by (nonlinear_arith)
            requires
                value >= first * unit,
                first >= 2,
                unit >= 1,
        ;
        lemma_near_one(value, row.len(), -(n as int));
        lemma_pow10_positive(24);
        assert(pow(10, 24) == 1_000_000_000_000_000_000_000_000int) by {
            assert(pow(10, 6) == 1_000_000) by {
                reveal_with_fuel(pow, 7);
            }
            lemma_pow_product(10, 6, 6, 1_000_000int, 1_000_000int);
            lemma_pow_product(10, 12, 12, 1_000_000_000_000int, 1_000_000_000_000int);
        }
        assert(value * pow(10, 24) > 1000000059604644775390625int * unit) by (nonlinear_arith)
            requires
                value >= 2 * unit,
                unit >= 1,
                pow(10, 24) == 1_000_000_000_000_000_000_000_000int,
        ;
    }
}

/// Of the qualities that are one digit, one is accepted and no other.
pub proof fn law_single_digit_qualities(text: &[char], r: bool)
    requires
        call_ensures(accepts, (text,), r),
        text@.len() == 1,
        '0' <= text@[0] && text@[0] <= '9',
    ensures
        r <==> text@[0] == '1',
{
    let s = text@;
    assert(text::is_digit(s[0]));
    lemma_digit_row(s);
    assert(text::number_value(s, 10) == text::digit_value(s[0])) by {
        reveal_with_fuel(text::number_value, 2);
        assert(s.drop_last() =~= Seq::<char>::empty());
    }
    vstd::arithmetic::power::lemma_pow0(10);
    let d = text::digit_value(s[0]);
    assert(d * pow(10, 0) * 0x100_0000 == d * 0x100_0000) by (nonlinear_arith)
        requires
            pow(10, 0) == 1,
    ;
}

/// What is empty, begins with a minus sign, or holds a character that no number has is
/// no quality that accepts.
pub proof fn law_other_texts_are_no_quality(text: &[char], at: int, r: bool)
    requires
        call_ensures(accepts, (text,), r),
        text@.len() == 0 || text@[0] == '-' || 0 <= at < text@.len() && !('0' <= text@[at]
            && text@[at] <= '9') && text@[at] != '.' && text@[at] != '+' && text@[at] != '-'
            && text@[at] != 'e' && text@[at] != 'E',
    ensures
        !r,
{
    let whole_text = text@;
    let signed = whole_text.len() > 0 && whole_text[0] == '+';
    let s = if signed {
        whole_text.skip(1)
    } else {
        whole_text
    };
    text::lemma_first_index(s, 'e');
    text::lemma_first_index(s, 'E');
    if let Some(number) = decimal(s) {
        let (body, rest) = match exponent_mark(s) {
            None => (s, Seq::<char>::empty()),
            Some(i) => (s.take(i), s.skip(i + 1)),
        };
        text::lemma_first_index(body, '.');
        assert forall|i: int| 0 <= i < body.len() implies text::is_digit(#[trigger] body[i])
            || body[i] == '.' by {
            match text::first_index(body, '.') {
                Some(p) => {
                    if i < p {
                        assert(text::is_digit(body.take(p)[i]));
                    } else if i > p {
                        assert(text::is_digit(body.skip(p + 1)[i - p - 1]));
                    }
                },
                None => {
                    assert(text::is_digit(body[i]));
                },
            }
        }
        assert forall|i: int| 0 <= i < rest.len() implies text::is_digit(#[trigger] rest[i])
            || rest[i] == '+' || rest[i] == '-' by {
            if rest[0] == '-' || rest[0] == '+' {
                if i > 0 {
                    assert(text::is_digit(rest.skip(1)[i - 1]));
                }
            } else {
                assert(text::is_digit(rest[i]));
            }
        }
        if whole_text.len() > 0 && whole_text[0] == '-' {
            assert(s[0] == '-');
            if body.len() > 0 {
                assert(body[0] == '-');
            } else {
                assert(mantissa(body) is Some);
            }
        } else if 0 <= at < whole_text.len() {
            let k = if signed {
                at - 1
            } else {
                at
            };
            if k >= 0 {
                assert(s[k] == whole_text[at]);
                if k < body.len() {
                    assert(body[k] == s[k]);
                } else if exponent_mark(s) is Some {
                    let i = exponent_mark(s)->0;
                    if k > i {
                        assert(rest[k - i - 1] == s[k]);
                    }
                }
            }
        }
    }
}

} // verus!
