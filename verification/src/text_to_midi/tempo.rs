//! Tempos written in words: decimal numbers, rounded to single precision and
//! brought into range.

use vstd::prelude::*;

use crate::rounding::nearest_even;
use crate::single::Single;
use crate::text::{
    all_digits, chars_of, digit, is_digit, lemma_number_monotone, number, parse_digits, same_text,
    string_of,
};
use crate::text_to_midi::timing::{FASTEST, SLOWEST};

verus! {

/// `c` with an ASCII capital replaced by the small letter.
pub open spec fn lower(c: char) -> char {
    if 'A' <= c && c <= 'Z' {
        (c as int + 32) as char
    } else {
        c
    }
}

/// A text in small letters, as far as they are ASCII.
pub open spec fn lowered(text: Seq<char>) -> Seq<char> {
    text.map_values(|c: char| lower(c))
}

/// Replaces an ASCII capital by the small letter.
pub fn to_lower(c: char) -> (small: char)
    ensures
        small == lower(c),
{
    if 'A' <= c && c <= 'Z' {
        ((c as u32 + 32) as u8) as char
    } else {
        c
    }
}

/// Where the first `c` in a text stands, as the number of characters before it.
pub open spec fn before_letter(text: Seq<char>, c: char) -> int
    decreases text.len(),
{
    if text.len() == 0 || text[0] == c {
        0
    } else {
        1 + before_letter(text.skip(1), c)
    }
}

/// Ten to the power `k`.
pub open spec fn ten_to(k: nat) -> int
    decreases k,
{
    if k == 0 {
        1
    } else {
        10 * ten_to((k - 1) as nat)
    }
}

/// The unit of the single-precision numbers next to a fraction from 16 to 512, as the
/// number of them in one; and the bits of the least number that has this unit.
pub open spec fn binade(n: int, d: int) -> (int, int) {
    if n < 32 * d {
        (0x8_0000, 0x4180_0000)
    } else if n < 64 * d {
        (0x4_0000, 0x4200_0000)
    } else if n < 128 * d {
        (0x2_0000, 0x4280_0000)
    } else if n < 256 * d {
        (0x1_0000, 0x4300_0000)
    } else {
        (0x8000, 0x4380_0000)
    }
}

/// The single-precision number nearest to `n / d`, brought into the range from 20 to
/// 400.
pub open spec fn tempo_single(n: int, d: int) -> Single {
    if n < 20 * d {
        Single { bits: SLOWEST }
    } else if n >= 400 * d {
        Single { bits: FASTEST }
    } else {
        let (unit, base) = binade(n, d);
        Single { bits: (base + nearest_even(n * unit, d) - 0x80_0000) as u32 }
    }
}

/// Whether a text starts with a minus sign, and what follows its sign.
pub open spec fn signed(text: Seq<char>) -> (bool, Seq<char>) {
    if text.len() > 0 && (text[0] == '-' || text[0] == '+') {
        (text[0] == '-', text.skip(1))
    } else {
        (false, text)
    }
}

/// The whole number that a text spells, with or without a sign.
pub open spec fn exponent_named(text: Seq<char>) -> Option<int> {
    let (negative, digits) = signed(text);
    if !all_digits(digits) {
        None
    } else if negative {
        Some(-number(digits))
    } else {
        Some(number(digits))
    }
}

/// The digits of a decimal number without a sign, and the power of ten that they are
/// to be taken by: digits around a point, and a power after the letter `e`.
pub open spec fn decimal_named(text: Seq<char>) -> Option<(Seq<char>, int)> {
    let at = before_letter(text, 'e');
    let front = text.take(at);
    let exponent = if at < text.len() {
        exponent_named(text.skip(at + 1))
    } else {
        Some(0int)
    };
    let dot = before_letter(front, '.');
    let part = if dot < front.len() {
        front.skip(dot + 1)
    } else {
        Seq::empty()
    };
    let digits = front.take(dot) + part;
    if exponent is None || !all_digits(digits) {
        None
    } else {
        Some((digits, exponent->0 - part.len()))
    }
}

/// The tempo of digits that are to be taken by a power of ten.
pub open spec fn decimal_tempo(digits: Seq<char>, power: int) -> Single {
    if power >= 0 {
        tempo_single(number(digits) * ten_to(power as nat), 1)
    } else {
        tempo_single(number(digits), ten_to((-power) as nat))
    }
}

/// The bits of a quiet NaN.
pub const QUIET_NAN: u32 = 0x7fc0_0000;

/// The bits of a quiet NaN with a minus sign.
pub const NEGATIVE_NAN: u32 = 0xffc0_0000;

/// The tempo that a text spells as a number, brought into range. Besides decimal
/// numbers, it may spell an infinity or no number.
pub open spec fn word_tempo(word: Seq<char>) -> Option<Single> {
    let (negative, rest) = signed(word);
    let body = lowered(rest);
    if body == "nan"@ {
        Some(
            Single {
                bits: if negative {
                    NEGATIVE_NAN
                } else {
                    QUIET_NAN
                },
            },
        )
    } else if body == "inf"@ || body == "infinity"@ {
        Some(
            Single {
                bits: if negative {
                    SLOWEST
                } else {
                    FASTEST
                },
            },
        )
    } else {
        match decimal_named(body) {
            None => None,
            Some((digits, power)) => if negative {
                Some(Single { bits: SLOWEST })
            } else {
                Some(decimal_tempo(digits, power))
            },
        }
    }
}

/// The number that decimal digits stand for.
pub open spec fn value_of(digits: Seq<u8>) -> int
    decreases digits.len(),
{
    if digits.len() == 0 {
        0
    } else {
        10 * value_of(digits.drop_last()) + digits.last()
    }
}

/// Every entry is a decimal digit.
pub open spec fn are_decimal(digits: Seq<u8>) -> bool {
    forall|i: int| 0 <= i < digits.len() ==> #[trigger] digits[i] <= 9
}

/// What the doubled digit `i` hands on to the one before it.
spec fn handed(digits: Seq<u8>, i: int) -> int {
    if 0 <= i < digits.len() && digits[i] >= 5 {
        1
    } else {
        0
    }
}

/// Powers of ten are positive, and grow.
proof fn lemma_ten_to(k: nat)
    ensures
        ten_to(k) >= 1,
        k >= 3 ==> ten_to(k) >= 1000,
    decreases k,
{
    reveal_with_fuel(ten_to, 4);
    if k > 0 {
        lemma_ten_to((k - 1) as nat);
    }
}

/// A larger power of ten is no smaller number.
proof fn lemma_ten_grows(a: nat, b: nat)
    requires
        a <= b,
    ensures
        1 <= ten_to(a) <= ten_to(b),
    decreases b,
{
    lemma_ten_to(a);
    if a < b {
        lemma_ten_grows(a, (b - 1) as nat);
    }
}

/// Decimal digits stand for less than the power of ten with as many zeros.
proof fn lemma_value_bound(digits: Seq<u8>)
    requires
        are_decimal(digits),
    ensures
        0 <= value_of(digits) < ten_to(digits.len()),
    decreases digits.len(),
{
    if digits.len() > 0 {
        assert(digits[digits.len() - 1] <= 9);
        assert(are_decimal(digits.drop_last())) by {
            assert forall|i: int| 0 <= i < digits.drop_last().len() implies #[trigger]
                digits.drop_last()[i] <= 9 by {
                assert(digits[i] <= 9);
            }
        }
        lemma_value_bound(digits.drop_last());
    }
}

/// Digits stand for zero where all of them are zero, and only there.
proof fn lemma_value_zero(digits: Seq<u8>)
    requires
        are_decimal(digits),
    ensures
        value_of(digits) == 0 <==> forall|i: int| 0 <= i < digits.len() ==> #[trigger] digits[i] == 0,
    decreases digits.len(),
{
    if digits.len() > 0 {
        let front = digits.drop_last();
        assert forall|i: int| 0 <= i < front.len() implies #[trigger] front[i] <= 9 by {
            assert(digits[i] <= 9);
        }
        lemma_value_zero(front);
        lemma_value_bound(front);
        if value_of(digits) == 0 {
            assert forall|i: int| 0 <= i < digits.len() implies #[trigger] digits[i] == 0 by {
                if i < front.len() {
                    assert(front[i] == 0);
                }
            }
        } else if forall|i: int| 0 <= i < digits.len() ==> #[trigger] digits[i] == 0 {
            assert forall|i: int| 0 <= i < front.len() implies #[trigger] front[i] == 0 by {
                assert(digits[i] == 0);
            }
            assert(digits[digits.len() - 1] == 0);
        }
    }
}

/// A number in two parts.
proof fn lemma_number_split(digits: Seq<char>, at: int)
    requires
        0 <= at <= digits.len(),
    ensures
        number(digits) == number(digits.take(at)) * ten_to((digits.len() - at) as nat) + number(
            digits.skip(at),
        ),
    decreases digits.len(),
{
    if at == digits.len() {
        assert(digits.take(at) =~= digits);
        assert(digits.skip(at).len() == 0);
        assert(number(digits) * 1 == number(digits));
    } else {
        let front = digits.drop_last();
        lemma_number_split(front, at);
        assert(front.take(at) =~= digits.take(at));
        assert(digits.skip(at).drop_last() =~= front.skip(at));
        assert(digits.skip(at).last() == digits.last());
        let a = number(digits.take(at));
        let p = ten_to((front.len() - at) as nat);
        assert(ten_to((digits.len() - at) as nat) == 10 * p);
        assert(10 * (a * p) == a * (10 * p)) by (nonlinear_arith);
    }
}

/// Digits spell less than the power of ten with as many zeros.
proof fn lemma_number_bound(digits: Seq<char>)
    requires
        forall|i: int| 0 <= i < digits.len() ==> is_digit(#[trigger] digits[i]),
    ensures
        0 <= number(digits) < ten_to(digits.len()),
    decreases digits.len(),
{
    if digits.len() > 0 {
        assert(is_digit(digits[digits.len() - 1]));
        let front = digits.drop_last();
        assert forall|i: int| 0 <= i < front.len() implies is_digit(#[trigger] front[i]) by {
            assert(is_digit(digits[i]));
        }
        lemma_number_bound(front);
    }
}

/// Doubles decimal digits: what they hand on, and what is left.
fn double(digits: &Vec<u8>) -> (r: (u64, Vec<u8>))
    requires
        are_decimal(digits@),
    ensures
        r.0 <= 1,
        r.1@.len() == digits@.len(),
        are_decimal(r.1@),
        value_of(r.1@) == 2 * value_of(digits@) - r.0 * ten_to(digits@.len()),
{
    let carry: u64 = if digits.len() > 0 && digits[0] >= 5 {
        1
    } else {
        0
    };
    let mut left: Vec<u8> = Vec::new();
    let mut n: usize = 0;
    let ghost all = digits@;
    assert(left@ =~= Seq::empty());
    assert(all.take(0) =~= Seq::empty());
    while n < digits.len()
        invariant
            n <= all.len(),
            all == digits@,
            are_decimal(all),
            left@.len() == n,
            are_decimal(left@),
            carry == handed(all, 0),
            value_of(left@) == 2 * value_of(all.take(n as int)) + handed(all, n as int) - carry
                * ten_to(n as nat),
        decreases all.len() - n,
    {
        let d: u8 = digits[n];
        assert(all[n as int] <= 9);
        let next: u8 = if n + 1 < digits.len() && digits[n + 1] >= 5 {
            1
        } else {
            0
        };
        let ghost before = left@;
        left.push((2 * d) % 10 + next);
        proof {
            assert(left@.drop_last() =~= before);
            assert(all.take(n + 1).drop_last() =~= all.take(n as int));
            assert(all.take(n + 1).last() == d);
            assert(handed(all, n + 1) == next);
            assert(2 * d == 10 * handed(all, n as int) + (2 * d) % 10);
            assert(ten_to((n + 1) as nat) == 10 * ten_to(n as nat));
            let p = ten_to(n as nat);
            assert(carry * (10 * p) == 10 * (carry * p)) by (nonlinear_arith);
            assert forall|i: int| 0 <= i < left@.len() implies #[trigger] left@[i] <= 9 by {
                if i < before.len() {
                    assert(before[i] <= 9);
                }
            }
        }
        n += 1;
    }
    assert(all.take(n as int) =~= all);
    (carry, left)
}

/// Whether one of the digits is not zero.
fn any_left(digits: &Vec<u8>) -> (answer: bool)
    requires
        are_decimal(digits@),
    ensures
        answer == (value_of(digits@) != 0),
{
    proof {
        lemma_value_zero(digits@);
    }
    let mut i: usize = 0;
    while i < digits.len()
        invariant
            i <= digits@.len(),
            forall|k: int| 0 <= k < i ==> #[trigger] digits@[k] == 0,
            value_of(digits@) == 0 <==> forall|k: int|
                0 <= k < digits@.len() ==> #[trigger] digits@[k] == 0,
        decreases digits@.len() - i,
    {
        if digits[i] != 0 {
            return true;
        }
        i += 1;
    }
    false
}

/// The tempo of a whole number and the digits after its point.
fn round_tempo(whole: u64, part: Vec<u8>) -> (tempo: Single)
    requires
        20 <= whole < 400,
        are_decimal(part@),
    ensures
        tempo == tempo_single(
            whole * ten_to(part@.len()) + value_of(part@),
            ten_to(part@.len()),
        ),
        SLOWEST <= tempo.bits <= FASTEST,
{
    let ghost d = ten_to(part@.len());
    let ghost n = whole * d + value_of(part@);
    proof {
        lemma_ten_to(part@.len());
        lemma_value_bound(part@);
        assert(whole * d <= n < (whole + 1) * d) by (nonlinear_arith)
            requires
                n == whole * d + value_of(part@),
                0 <= value_of(part@) < d,
        ;
        lemma_between(n, d, whole as int);
    }
    let (steps, base): (u64, u64) = if whole < 32 {
        (19, 0x4180_0000)
    } else if whole < 64 {
        (18, 0x4200_0000)
    } else if whole < 128 {
        (17, 0x4280_0000)
    } else if whole < 256 {
        (16, 0x4300_0000)
    } else {
        (15, 0x4380_0000)
    };
    let ghost unit = binade(n, d).0;
    let mut q: u64 = whole;
    let mut rest: Vec<u8> = part;
    let mut done: u64 = 0;
    let mut scale: u64 = 1;
    proof {
        assert(n * 1 == n);
        reveal_with_fuel(two_to, 20);
        assert(two_to(steps as nat) == unit);
    }
    while done < steps
        invariant
            done <= steps <= 19,
            20 <= whole < 400,
            scale <= 0x8_0000,
            scale * two_to((steps - done) as nat) == unit,
            unit <= 0x8_0000,
            d == ten_to(part@.len()),
            d >= 1,
            rest@.len() == part@.len(),
            are_decimal(rest@),
            q * d + value_of(rest@) == n * scale,
            whole * scale <= q < (whole + 1) * scale,
        decreases steps - done,
    {
        let (carry, left) = double(&rest);
        proof {
            let r = value_of(rest@);
            let l = value_of(left@);
            let h = (steps - done - 1) as nat;
            assert(two_to((steps - done) as nat) == 2 * two_to(h));
            lemma_two_to(h);
            assert((2 * q + carry) * d + l == n * (2 * scale)) by (nonlinear_arith)
                requires
                    q * d + r == n * scale,
                    l == 2 * r - carry * d,
            ;
            assert(2 * scale <= unit) by (nonlinear_arith)
                requires
                    scale * (2 * two_to(h)) == unit,
                    two_to(h) >= 1,
                    scale >= 0,
            ;
            assert((2 * scale) * two_to(h) == unit) by (nonlinear_arith)
                requires
                    scale * (2 * two_to(h)) == unit,
            ;
            assert(whole * (2 * scale) <= 2 * q + carry < (whole + 1) * (2 * scale)) by (nonlinear_arith)
                requires
                    whole * scale <= q < (whole + 1) * scale,
                    0 <= carry <= 1,
            ;
            assert((whole + 1) * (2 * scale) <= 400 * 0x8_0000) by (nonlinear_arith)
                requires
                    0 <= whole < 400,
                    0 <= 2 * scale <= 0x8_0000,
            ;
        }
        q = 2 * q + carry;
        rest = left;
        scale = 2 * scale;
        done += 1;
    }
    let (half, left) = double(&rest);
    let more: bool = any_left(&left);
    proof {
        let r = value_of(rest@);
        lemma_value_bound(rest@);
        lemma_value_bound(left@);
        assert((steps - done) as nat == 0);
        assert(two_to(0) == 1);
        assert(scale * 1 == scale);
        assert(scale == unit);
        lemma_units(whole as int, unit, q as int);
        vstd::arithmetic::div_mod::lemma_fundamental_div_mod_converse(
            n * unit,
            d,
            q as int,
            r,
        );
        assert(half == 1 <==> 2 * r >= d) by (nonlinear_arith)
            requires
                value_of(left@) == 2 * r - half * d,
                0 <= value_of(left@) < d,
                0 <= half <= 1,
        ;
        assert(half * d == (if half == 1 {
            d
        } else {
            0
        })) by (nonlinear_arith)
            requires
                0 <= half <= 1,
        ;
    }
    let up: bool = half == 1 && (more || q % 2 == 1);
    let rounded: u64 = if up {
        q + 1
    } else {
        q
    };
    assert(rounded == nearest_even(n * unit, d));
    Single { bits: (base + rounded - 0x80_0000) as u32 }
}

/// The numbers of units of a tempo fill the significand of a single-precision number.
proof fn lemma_units(whole: int, unit: int, q: int)
    requires
        20 <= whole < 400,
        unit == (if whole < 32 {
            0x8_0000int
        } else if whole < 64 {
            0x4_0000
        } else if whole < 128 {
            0x2_0000
        } else if whole < 256 {
            0x1_0000
        } else {
            0x8000
        }),
        whole * unit <= q < (whole + 1) * unit,
    ensures
        0x80_0000 <= q < 0x100_0000,
        whole < 32 ==> q >= 20 * 0x8_0000,
        whole >= 256 ==> q < 400 * 0x8000,
{
    if whole < 32 {
        assert(unit == 0x8_0000);
        assert(whole * 0x8_0000 <= q < (whole + 1) * 0x8_0000);
    } else if whole < 64 {
        assert(unit == 0x4_0000);
        assert(whole * 0x4_0000 <= q < (whole + 1) * 0x4_0000);
    } else if whole < 128 {
        assert(unit == 0x2_0000);
        assert(whole * 0x2_0000 <= q < (whole + 1) * 0x2_0000);
    } else if whole < 256 {
        assert(unit == 0x1_0000);
        assert(whole * 0x1_0000 <= q < (whole + 1) * 0x1_0000);
    } else {
        assert(unit == 0x8000);
        assert(whole * 0x8000 <= q < (whole + 1) * 0x8000);
    }
}

/// Two to the power `k`.
spec fn two_to(k: nat) -> int
    decreases k,
{
    if k == 0 {
        1
    } else {
        2 * two_to((k - 1) as nat)
    }
}

/// Powers of two are positive.
proof fn lemma_two_to(k: nat)
    ensures
        two_to(k) >= 1,
    decreases k,
{
    if k > 0 {
        lemma_two_to((k - 1) as nat);
    }
}

/// Where a fraction between a whole number and the next lies.
proof fn lemma_between(n: int, d: int, whole: int)
    requires
        d >= 1,
        whole * d <= n < (whole + 1) * d,
        20 <= whole < 400,
    ensures
        20 * d <= n < 400 * d,
        n < 32 * d <==> whole < 32,
        n < 64 * d <==> whole < 64,
        n < 128 * d <==> whole < 128,
        n < 256 * d <==> whole < 256,
{
    assert(forall|k: int| #![trigger k * d] k <= whole ==> k * d <= n) by {
        assert forall|k: int| #![trigger k * d] k <= whole implies k * d <= n by {
            assert(k * d <= whole * d) by (nonlinear_arith)
                requires
                    k <= whole,
                    d >= 1,
            ;
        }
    }
    assert(forall|k: int| #![trigger k * d] k > whole ==> n < k * d) by {
        assert forall|k: int| #![trigger k * d] k > whole implies n < k * d by {
            assert((whole + 1) * d <= k * d) by (nonlinear_arith)
                requires
                    k >= whole + 1,
                    d >= 1,
            ;
        }
    }
    assert(20 * d <= n < 400 * d);
}

/// The tempo of a whole number from 20 to 400.
pub fn whole_tempo(n: u64) -> (tempo: Single)
    requires
        20 <= n < 400,
    ensures
        tempo == tempo_single(n as int, 1),
        SLOWEST <= tempo.bits <= FASTEST,
{
    let none: Vec<u8> = Vec::new();
    assert(ten_to(0) == 1);
    round_tempo(n, none)
}

/// The number of characters before the first `c`.
fn find_letter(chars: &[char], c: char) -> (at: usize)
    ensures
        at == before_letter(chars@, c),
        at <= chars@.len(),
{
    let mut i: usize = 0;
    assert(chars@.skip(0) =~= chars@);
    while i < chars.len() && chars[i] != c
        invariant
            i <= chars@.len(),
            before_letter(chars@, c) == i + before_letter(chars@.skip(i as int), c),
        decreases chars@.len() - i,
    {
        assert(chars@.skip(i as int)[0] == chars@[i as int]);
        assert(chars@.skip(i as int).skip(1) =~= chars@.skip(i + 1));
        i += 1;
    }
    if i < chars.len() {
        assert(chars@.skip(i as int)[0] == chars@[i as int]);
    }
    i
}

/// Whether all characters are ASCII digits, and there is one.
fn only_digits(chars: &[char]) -> (answer: bool)
    ensures
        answer == all_digits(chars@),
{
    if chars.len() == 0 {
        return false;
    }
    let mut i: usize = 0;
    while i < chars.len()
        invariant
            i <= chars@.len(),
            forall|k: int| 0 <= k < i ==> is_digit(#[trigger] chars@[k]),
        decreases chars@.len() - i,
    {
        if chars[i] < '0' || chars[i] > '9' {
            assert(!is_digit(chars@[i as int]));
            return false;
        }
        i += 1;
    }
    true
}

/// The number that digits spell, or 1000 where it is larger.
fn capped_number(chars: &[char]) -> (n: u64)
    requires
        all_digits(chars@),
    ensures
        n == (if number(chars@) < 1000 {
            number(chars@)
        } else {
            1000
        }),
{
    match parse_digits(chars, 999) {
        Some(n) => n,
        None => 1000,
    }
}

/// The digits that characters stand for.
fn digit_values(chars: &[char]) -> (digits: Vec<u8>)
    requires
        forall|i: int| 0 <= i < chars@.len() ==> is_digit(#[trigger] chars@[i]),
    ensures
        digits@.len() == chars@.len(),
        are_decimal(digits@),
        value_of(digits@) == number(chars@),
{
    let mut digits: Vec<u8> = Vec::new();
    let mut i: usize = 0;
    assert(digits@ =~= Seq::empty());
    assert(chars@.take(0) =~= Seq::empty());
    while i < chars.len()
        invariant
            i <= chars@.len(),
            forall|k: int| 0 <= k < chars@.len() ==> is_digit(#[trigger] chars@[k]),
            digits@.len() == i,
            are_decimal(digits@),
            value_of(digits@) == number(chars@.take(i as int)),
        decreases chars@.len() - i,
    {
        let c: char = chars[i];
        assert(is_digit(chars@[i as int]));
        let ghost before = digits@;
        digits.push((c as u32 - 48) as u8);
        proof {
            assert(digits@.drop_last() =~= before);
            assert(chars@.take(i + 1).drop_last() =~= chars@.take(i as int));
            assert(chars@.take(i + 1).last() == c);
            assert forall|k: int| 0 <= k < digits@.len() implies #[trigger] digits@[k] <= 9 by {
                if k < before.len() {
                    assert(before[k] <= 9);
                }
            }
        }
        i += 1;
    }
    assert(chars@.take(i as int) =~= chars@);
    digits
}

/// The tempo of digits that are to be taken by a power of ten that is not negative.
fn raised_tempo(digits: &[char], power: u64) -> (tempo: Single)
    requires
        all_digits(digits@),
    ensures
        tempo == decimal_tempo(digits@, power as int),
        SLOWEST <= tempo.bits <= FASTEST,
{
    let n: u64 = capped_number(digits);
    let ghost m = number(digits@);
    proof {
        lemma_number_monotone(digits@, 0);
        lemma_ten_to(power as nat);
    }
    if n == 0 {
        assert(0 * ten_to(power as nat) == 0);
        return Single { bits: SLOWEST };
    }
    if power >= 3 || n >= 1000 {
        assert(m * ten_to(power as nat) >= 1000) by (nonlinear_arith)
            requires
                m >= 1,
                ten_to(power as nat) >= 1,
                m >= 1000 || ten_to(power as nat) >= 1000,
        ;
        return Single { bits: FASTEST };
    }
    assert(n < 1000 && n == m);
    let whole: u64 = if power == 0 {
        n
    } else if power == 1 {
        n * 10
    } else {
        n * 100
    };
    proof {
        reveal_with_fuel(ten_to, 4);
        assert(ten_to(0) == 1 && ten_to(1) == 10 && ten_to(2) == 100);
        if power == 0 {
            assert(m * ten_to(power as nat) == m * 1);
        } else if power == 1 {
            assert(m * ten_to(power as nat) == m * 10);
        } else {
            assert(power == 2);
            assert(m * ten_to(power as nat) == m * 100);
        }
    }
    assert(whole == m * ten_to(power as nat));
    if whole < 20 {
        Single { bits: SLOWEST }
    } else if whole >= 400 {
        Single { bits: FASTEST }
    } else {
        whole_tempo(whole)
    }
}

/// The tempo of digits of which the last `places` come after the point.
fn pointed_tempo(digits: &[char], places: usize) -> (tempo: Single)
    requires
        all_digits(digits@),
        0 < places < digits@.len(),
    ensures
        tempo == decimal_tempo(digits@, -(places as int)),
        SLOWEST <= tempo.bits <= FASTEST,
{
    let at: usize = digits.len() - places;
    let front = vstd::slice::slice_subrange(digits, 0, at);
    let back = vstd::slice::slice_subrange(digits, at, digits.len());
    let ghost d = ten_to(places as nat);
    let ghost m = number(front@);
    proof {
        assert(front@ =~= digits@.take(at as int));
        assert(back@ =~= digits@.skip(at as int));
        assert forall|i: int| 0 <= i < front@.len() implies is_digit(#[trigger] front@[i]) by {
            assert(is_digit(digits@[i]));
        }
        assert forall|i: int| 0 <= i < back@.len() implies is_digit(#[trigger] back@[i]) by {
            assert(is_digit(digits@[at + i]));
        }
        lemma_number_split(digits@, at as int);
        lemma_number_bound(back@);
        lemma_number_bound(front@);
        lemma_ten_to(places as nat);
        assert(m * d <= number(digits@) < (m + 1) * d) by (nonlinear_arith)
            requires
                number(digits@) == m * d + number(back@),
                0 <= number(back@) < d,
        ;
    }
    let whole: u64 = capped_number(front);
    if whole < 20 {
        assert((m + 1) * d <= 20 * d) by (nonlinear_arith)
            requires
                m + 1 <= 20,
                d >= 1,
        ;
        return Single { bits: SLOWEST };
    }
    if whole >= 400 {
        assert(m * d >= 400 * d) by (nonlinear_arith)
            requires
                m >= 400,
                d >= 1,
        ;
        assert(m * d >= 20 * d) by (nonlinear_arith)
            requires
                m >= 400,
                d >= 1,
        ;
        return Single { bits: FASTEST };
    }
    round_tempo(whole, digit_values(back))
}

/// The tempo of digits that are to be taken by a power of ten below zero.
fn lowered_tempo(digits: &[char], places: u128) -> (tempo: Single)
    requires
        all_digits(digits@),
        places > 0,
    ensures
        tempo == decimal_tempo(digits@, -(places as int)),
        SLOWEST <= tempo.bits <= FASTEST,
{
    let length: usize = digits.len();
    if places < length as u128 {
        return pointed_tempo(digits, places as usize);
    }
    proof {
        lemma_number_bound(digits@);
        lemma_ten_grows(digits@.len(), places as nat);
    }
    Single { bits: SLOWEST }
}

/// The tempo of digits, so many of which come after the point, that are to be taken
/// by a power of ten.
fn read_decimal(digits: &Vec<char>, part: usize, negative: bool, power: &[char]) -> (tempo: Single)
    requires
        all_digits(digits@),
        all_digits(power@),
        part <= digits@.len(),
        part + power@.len() <= usize::MAX,
    ensures
        tempo == decimal_tempo(
            digits@,
            (if negative {
                -number(power@)
            } else {
                number(power@)
            }) - part,
        ),
        SLOWEST <= tempo.bits <= FASTEST,
{
    let ghost e = number(power@);
    proof {
        lemma_number_monotone(power@, 0);
        lemma_number_monotone(digits@, 0);
        lemma_number_bound(power@);
        reveal_with_fuel(ten_to, 4);
    }
    match parse_digits(power, u64::MAX) {
        Some(exponent) => {
            if negative {
                let places: u128 = exponent as u128 + part as u128;
                if places == 0 {
                    raised_tempo(digits.as_slice(), 0)
                } else {
                    lowered_tempo(digits.as_slice(), places)
                }
            } else if exponent >= part as u64 {
                raised_tempo(digits.as_slice(), exponent - part as u64)
            } else {
                lowered_tempo(digits.as_slice(), part as u128 - exponent as u128)
            }
        },
        None => {
            assert(e > u64::MAX);
            if negative {
                let length: usize = digits.len();
                proof {
                    assert(length <= u64::MAX);
                    lemma_number_bound(digits@);
                    lemma_ten_grows(digits@.len(), (e + part) as nat);
                }
                return Single { bits: SLOWEST };
            }
            proof {
                assert(power@.len() >= 4);
                lemma_ten_to((e - part) as nat);
            }
            if capped_number(digits.as_slice()) == 0 {
                assert(0 * ten_to((e - part) as nat) == 0);
                Single { bits: SLOWEST }
            } else {
                assert(number(digits@) * ten_to((e - part) as nat) >= 1000) by (nonlinear_arith)
                    requires
                        number(digits@) >= 1,
                        ten_to((e - part) as nat) >= 1000,
                ;
                Single { bits: FASTEST }
            }
        },
    }
}

/// Reads a decimal number without a sign.
fn read_number(text: &Vec<char>, below: bool) -> (tempo: Option<Single>)
    ensures
        match decimal_named(text@) {
            None => tempo is None,
            Some((digits, power)) => tempo == Some(
                if below {
                    Single { bits: SLOWEST }
                } else {
                    decimal_tempo(digits, power)
                },
            ),
        },
        tempo is Some ==> SLOWEST <= tempo->0.bits <= FASTEST,
{
    let length: usize = text.len();
    let at: usize = find_letter(text.as_slice(), 'e');
    let front = vstd::slice::slice_subrange(text.as_slice(), 0, at);
    assert(front@ =~= text@.take(at as int));
    let dot: usize = find_letter(front, '.');
    let mut digits: Vec<char> = Vec::new();
    let mut i: usize = 0;
    let ghost whole = front@.take(dot as int);
    while i < dot
        invariant
            i <= dot <= front@.len(),
            whole == front@.take(dot as int),
            digits@ == front@.take(i as int),
        decreases dot - i,
    {
        digits.push(front[i]);
        i += 1;
        assert(digits@ =~= front@.take(i as int));
    }
    let ghost part = if dot < at {
        front@.skip(dot + 1)
    } else {
        Seq::empty()
    };
    let mut k: usize = if dot < at {
        dot + 1
    } else {
        at
    };
    let start: usize = k;
    assert(digits@ =~= whole + part.take(0));
    while k < at
        invariant
            start <= k <= at,
            at == front@.len(),
            whole == front@.take(dot as int),
            dot <= at,
            start == (if dot < at {
                dot + 1
            } else {
                at as int
            }),
            part == front@.skip(start as int),
            digits@ == whole + part.take(k - start),
        decreases at - k,
    {
        digits.push(front[k]);
        k += 1;
        assert(part.take(k - start) =~= part.take(k - start - 1).push(front@[k - 1]));
        assert(digits@ =~= whole + part.take(k - start));
    }
    assert(part.take(part.len() as int) =~= part);
    if !only_digits(digits.as_slice()) {
        return None;
    }
    if at >= length {
        return Some(
            if below {
                Single { bits: SLOWEST }
            } else {
                let tail: usize = at - start;
                if tail == 0 {
                    raised_tempo(digits.as_slice(), 0)
                } else {
                    lowered_tempo(digits.as_slice(), tail as u128)
                }
            },
        );
    }
    let tail = vstd::slice::slice_subrange(text.as_slice(), at + 1, length);
    assert(tail@ =~= text@.skip(at + 1));
    let (negative, from): (bool, usize) = if tail.len() > 0 && (tail[0] == '-' || tail[0] == '+') {
        (tail[0] == '-', 1)
    } else {
        (false, 0)
    };
    let power = vstd::slice::slice_subrange(tail, from, tail.len());
    assert(power@ =~= signed(text@.skip(at + 1)).1);
    if !only_digits(power) {
        return None;
    }
    Some(
        if below {
            Single { bits: SLOWEST }
        } else {
            read_decimal(&digits, at - start, negative, power)
        },
    )
}

/// The tempo that a text spells as a number.
pub fn read_tempo(word: &str) -> (tempo: Option<Single>)
    ensures
        tempo == word_tempo(word@),
        tempo is Some ==> tempo->0.is_nan() || SLOWEST <= tempo->0.bits <= FASTEST,
{
    let chars = chars_of(word);
    let length: usize = chars.len();
    let (negative, from): (bool, usize) = if length > 0 && (chars[0] == '-' || chars[0] == '+') {
        (chars[0] == '-', 1)
    } else {
        (false, 0)
    };
    let ghost rest = signed(word@).1;
    assert(rest =~= word@.skip(from as int));
    let mut body: Vec<char> = Vec::new();
    let mut i: usize = from;
    while i < length
        invariant
            from <= i <= length,
            length == chars@.len(),
            rest == chars@.skip(from as int),
            body@ == lowered(rest).take(i - from),
        decreases length - i,
    {
        body.push(to_lower(chars[i]));
        i += 1;
        assert(body@ =~= lowered(rest).take(i - from));
    }
    assert(body@ =~= lowered(rest));
    let text = string_of(body.as_slice());
    if same_text(text.as_str(), "nan") {
        Some(
            Single {
                bits: if negative {
                    NEGATIVE_NAN
                } else {
                    QUIET_NAN
                },
            },
        )
    } else if same_text(text.as_str(), "inf") || same_text(text.as_str(), "infinity") {
        Some(
            Single {
                bits: if negative {
                    SLOWEST
                } else {
                    FASTEST
                },
            },
        )
    } else {
        read_number(&body, negative)
    }
}

} // verus!
