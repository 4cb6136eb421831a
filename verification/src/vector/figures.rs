//! What written numbers, texts and truth values are read as.

use vstd::arithmetic::power::*;
use vstd::arithmetic::power2::*;
use vstd::prelude::*;

use crate::bytes;
use crate::vector::binary64;
use crate::vector::binary64::Binary64;
use crate::vector::binary64::BINADE;
use crate::vector::binary64::INFINITE;
use crate::vector::decimal;
use crate::vector::exact;
use crate::vector::exact::one;
use crate::vector::exact::TWO_BINADES;
use crate::vector::helpers;
use crate::vector::measures::is_finite;
use crate::vector::measures::size;
use crate::vector::numeral;
use crate::vector::scan;
use crate::vector::single_pass;
use crate::vector::ParseError;

verus! {

/// Only digits.
pub open spec fn are_digits(s: Seq<u8>) -> bool {
    forall|k: int| 0 <= k < s.len() ==> 48 <= (#[trigger] s[k]) <= 57
}

/// A minus, or nothing.
pub open spec fn minus(negative: bool) -> Seq<u8> {
    if negative {
        seq![45u8]
    } else {
        Seq::empty()
    }
}

/// Digits, and behind a point more of them, if there is one.
pub open spec fn figures(whole: Seq<u8>, fraction: Option<Seq<u8>>) -> Seq<u8> {
    match fraction {
        Some(f) => whole + seq![46u8] + f,
        None => whole,
    }
}

/// The digits behind the point.
pub open spec fn behind(fraction: Option<Seq<u8>>) -> Seq<u8> {
    match fraction {
        Some(f) => f,
        None => Seq::empty(),
    }
}

/// The number is as near to `n / d` as binary64 numbers are, but for a few units of the last place.
#[verifier::opaque]
pub open spec fn is_near(value: Binary64, n: int, d: int) -> bool {
    &&& 1_000_000_000_000_000 * (size(value) * d - n * one()) <= n * one() + 1_000_000_000_000_000
        * d
    &&& 1_000_000_000_000_000 * (n * one() - size(value) * d) <= n * one() + 1_000_000_000_000_000
        * d
}

proof fn lemma_are_digits(s: Seq<u8>)
    ensures
        are_digits(s) <==> bytes::all_digits(s),
{
    if are_digits(s) {
        assert forall|i: int| 0 <= i < s.len() implies bytes::is_digit(#[trigger] s[i]) by {}
    }
    if bytes::all_digits(s) {
        assert forall|k: int| 0 <= k < s.len() implies 48 <= (#[trigger] s[k]) <= 57 by {
            assert(bytes::is_digit(s[k]));
        }
    }
}

/// Figures, taken apart.
proof fn lemma_figures(whole: Seq<u8>, fraction: Option<Seq<u8>>)
    requires
        are_digits(whole),
        whole.len() > 0,
        are_digits(behind(fraction)),
    ensures
        ({
            let m = figures(whole, fraction);
            &&& numeral::fraction_part(m) == behind(fraction)
            &&& numeral::digits_of(m) == whole + behind(fraction)
            &&& bytes::all_digits(numeral::digits_of(m))
            &&& forall|k: int| 0 <= k < m.len() ==> (48 <= (#[trigger] m[k]) <= 57 || m[k] == 46)
            &&& 48 <= m[0] <= 57
        }),
{
    let m = figures(whole, fraction);
    let w = whole.len() as int;
    assert forall|k: int| 0 <= k < m.len() implies (48 <= (#[trigger] m[k]) <= 57 || m[k] == 46) by {
        if k < w {
            assert(m[k] == whole[k]);
        } else if k > w {
            assert(m[k] == behind(fraction)[k - w - 1]);
        }
    }
    assert(m[0] == whole[0]);
    assert forall|j: int| 0 <= j < w implies m[j] != 46 by {
        assert(m[j] == whole[j]);
    }
    bytes::lemma_first_index_is(m, 46, w);
    assert(numeral::whole_part(m) =~= whole);
    assert(numeral::fraction_part(m) =~= behind(fraction));
    let digits = whole + behind(fraction);
    assert forall|i: int| 0 <= i < digits.len() implies bytes::is_digit(#[trigger] digits[i]) by {
        if i < w {
            assert(digits[i] == whole[i]);
        } else {
            assert(digits[i] == behind(fraction)[i - w]);
        }
    }
}

proof fn lemma_sign(negative: bool, m: Seq<u8>)
    requires
        m.len() > 0,
        48 <= m[0] <= 57,
    ensures
        numeral::without_sign(minus(negative) + m) == m,
        numeral::is_negative(minus(negative) + m) == negative,
{
    assert((minus(true) + m).drop_first() =~= m);
    assert(minus(false) + m =~= m);
}

/// Rounding once keeps a decimal number near.
proof fn lemma_decimal_is_near(negative: bool, digits: nat, exponent: int)
    requires
        is_finite(decimal::of_decimal(negative, digits, exponent)),
    ensures
        is_near(
            decimal::of_decimal(negative, digits, exponent),
            if exponent >= 0 {
                digits * pow(10, exponent as nat)
            } else {
                digits as int
            },
            if exponent >= 0 {
                1
            } else {
                pow(10, (-exponent) as nat)
            },
        ),
{
    reveal(is_near);
    let value = decimal::of_decimal(negative, digits, exponent);
    let num = decimal::decimal_num(digits, exponent);
    let den = decimal::decimal_den(exponent);
    exact::lemma_one();
    if exponent >= 0 {
        lemma_pow_positive(10, exponent as nat);
    } else {
        lemma_pow_positive(10, (-exponent) as nat);
    }
    exact::lemma_rounding_error(num, den);
}

/// 2^64.
spec fn large() -> nat {
    0x1_0000_0000_0000_0000
}

/// Fractions up to 2^64 are finite.
proof fn lemma_not_too_large(num: nat, den: nat)
    requires
        den > 0,
        num <= large() * one() * den,
    ensures
        binary64::rounded(num, den) < INFINITE,
{
    let b = BINADE as nat;
    let mag = (1086 * b + b) as nat;
    exact::lemma_units(1086, b);
    lemma2_to64();
    lemma2_to64_rest();
    lemma_pow2_adds(52, 1086);
    lemma_pow2_adds(64, 1074);
    assert(binary64::units(mag) == large() * one());
    exact::lemma_rounding_keeps(mag, 1);
    let top = large() * one();
    assert(num * 1 <= top * den);
    assert(top * 1 == top);
    exact::lemma_rounding_grows(num, den, top, 1);
}

proof fn lemma_one_is_large()
    ensures
        one() >= 0x1_0000_0000_0000_0000_0000_0000_0000_0000,
{
    lemma2_to64();
    lemma_pow2_adds(64, 64);
    binary64::lemma_pow2_below(128, 1074);
}

/// Short numerals are near to what they say too.
proof fn lemma_short_is_near(digits: nat, places: nat)
    requires
        digits < 1_000_000_000_000_000_000,
        places <= 17,
    ensures
        ({
            let value = binary64::product(
                binary64::of_integer(digits as int),
                binary64::of_fraction(1, pow(10, places) as nat),
            );
            &&& is_finite(value)
            &&& !value.negative
            &&& is_near(value, digits as int, pow(10, places))
        }),
{
    reveal(is_near);
    let (n, o, d) = (digits, one(), pow(10, places) as nat);
    lemma_one_is_large();
    lemma_pow_positive(10, places);
    assert(d <= 100_000_000_000_000_000) by {
        lemma_pow_increases(10, places, 17);
        reveal(pow);
        assert(pow(10, 17) == 100_000_000_000_000_000) by {
            reveal_with_fuel(pow, 18);
        }
    }
    let v = n * o;
    assert(v <= large() * o * 1) by (nonlinear_arith)
        requires
            v == n * o,
            n < 1_000_000_000_000_000_000,
            large() == 0x1_0000_0000_0000_0000,
    ;
    lemma_not_too_large(v, 1);
    exact::lemma_rounding_error(v, 1);
    let a = binary64::units(binary64::rounded(v, 1));
    assert(a * 1 == a);
    assert(o <= large() * o * d) by (nonlinear_arith)
        requires
            d >= 1,
            large() >= 1,
            o >= 0,
    ;
    lemma_not_too_large(o, d);
    exact::lemma_rounding_error(o, d);
    let g = binary64::units(binary64::rounded(o, d));
    assert(1 * o == o);
    if n == 0 {
        binary64::lemma_rounded_zero(1);
        exact::lemma_units(0, 0);
        assert(v == 0);
        assert(a == 0);
    }
    assert(a <= 2 * v);
    let gd = g * d;
    assert(BINADE * d <= o);
    assert(gd <= 2 * o);
    let ag = a * g;
    assert(ag <= large() * o * o) by (nonlinear_arith)
        requires
            ag == a * g,
            a <= 2 * (n * o),
            g * d <= 2 * o,
            d >= 1,
            g >= 0,
            n < 1_000_000_000_000_000_000,
            large() == 0x1_0000_0000_0000_0000,
            o >= 0,
            a >= 0,
    ;
    lemma_not_too_large(ag, o);
    exact::lemma_rounding_error(ag, o);
    let p = binary64::units(binary64::rounded(ag, o));
    lemma_short_error(n as int, o as int, d as int, a as int, g as int, p as int);
}

/// Three errors of half a unit of the last place make less than one in fifteen digits.
proof fn lemma_short_error(n: int, o: int, d: int, a: int, g: int, p: int)
    requires
        n >= 0,
        o >= 0x1_0000_0000_0000_0000_0000_0000_0000_0000,
        1 <= d <= 100_000_000_000_000_000,
        a >= 0,
        g >= 0,
        n == 0 ==> a == 0,
        TWO_BINADES * (a - n * o) <= n * o + BINADE,
        TWO_BINADES * (n * o - a) <= n * o + BINADE,
        TWO_BINADES * (g * d - o) <= o + BINADE * d,
        TWO_BINADES * (o - g * d) <= o + BINADE * d,
        TWO_BINADES * (p * o - a * g) <= a * g + BINADE * o,
        TWO_BINADES * (a * g - p * o) <= a * g + BINADE * o,
    ensures
        1_000_000_000_000_000 * (p * d - n * o) <= n * o + 1_000_000_000_000_000 * d,
        1_000_000_000_000_000 * (n * o - p * d) <= n * o + 1_000_000_000_000_000 * d,
{
    let (x, y, z, w, od) = (p * o * d, a * g * d, a * o, n * o * o, o * d);
    assert(TWO_BINADES * (x - y) <= y + BINADE * od && TWO_BINADES * (y - x) <= y + BINADE * od)
        by (nonlinear_arith)
        requires
            TWO_BINADES * (p * o - a * g) <= a * g + BINADE * o,
            TWO_BINADES * (a * g - p * o) <= a * g + BINADE * o,
            x == p * o * d,
            y == a * g * d,
            od == o * d,
            d >= 1,
    ;
    let ad = a * d;
    assert(TWO_BINADES * (y - z) <= z + BINADE * ad && TWO_BINADES * (z - y) <= z + BINADE * ad)
        by (nonlinear_arith)
        requires
            TWO_BINADES * (g * d - o) <= o + BINADE * d,
            TWO_BINADES * (o - g * d) <= o + BINADE * d,
            y == a * g * d,
            z == a * o,
            ad == a * d,
            a >= 0,
    ;
    assert(1000 * (BINADE * ad) <= z) by (nonlinear_arith)
        requires
            ad == a * d,
            z == a * o,
            a >= 0,
            1000 * (BINADE * d) <= o,
    ;
    assert(TWO_BINADES * (z - w) <= w + BINADE * o && TWO_BINADES * (w - z) <= w + BINADE * o)
        by (nonlinear_arith)
        requires
            TWO_BINADES * (a - n * o) <= n * o + BINADE,
            TWO_BINADES * (n * o - a) <= n * o + BINADE,
            z == a * o,
            w == n * o * o,
            o >= 0,
    ;
    if n > 0 {
        assert(1000 * (BINADE * o) <= w) by (nonlinear_arith)
            requires
                w == n * o * o,
                n >= 1,
                o >= 1000 * BINADE,
        ;
    } else {
        assert(z == 0 && w == 0 && y == 0) by (nonlinear_arith)
            requires
                n == 0,
                a == 0,
                z == a * o,
                w == n * o * o,
                y == a * g * d,
        ;
    }
    assert(od > 0) by (nonlinear_arith)
        requires
            od == o * d,
            o > 0,
            d > 0,
    ;
    assert(1_000_000_000_000_000 * (x - w) <= w + 1_000_000_000_000_000 * od);
    assert(1_000_000_000_000_000 * (w - x) <= w + 1_000_000_000_000_000 * od);
    let (l, r) = (p * d - n * o, n * o + 1_000_000_000_000_000 * d);
    assert(1_000_000_000_000_000 * l <= r && -1_000_000_000_000_000 * l <= r) by (nonlinear_arith)
        requires
            1_000_000_000_000_000 * (x - w) <= w + 1_000_000_000_000_000 * od,
            1_000_000_000_000_000 * (w - x) <= w + 1_000_000_000_000_000 * od,
            l == p * d - n * o,
            r == n * o + 1_000_000_000_000_000 * d,
            x == p * o * d,
            w == n * o * o,
            od == o * d,
            o > 0,
    ;
}

proof fn lemma_digit_run(json: Seq<u8>, i: int, to: int, seen: bool)
    requires
        0 <= i <= to <= json.len(),
        forall|k: int| i <= k < to ==> 48 <= (#[trigger] json[k]) <= 57,
    ensures
        scan::mantissa_end(json, i, seen) == scan::mantissa_end(json, to, seen),
        scan::digits_end(json, i) == scan::digits_end(json, to),
    decreases to - i,
{
    if i < to {
        assert(bytes::is_digit(json[i]));
        lemma_digit_run(json, i + 1, to, seen);
    }
}

/// Nothing that goes on with a number stands at `at`.
pub open spec fn number_stops(json: Seq<u8>, at: int) -> bool {
    at == json.len() || (at < json.len() && !(48 <= json[at] <= 57) && json[at] != 46 && json[at]
        != 101 && json[at] != 69)
}

/// The number ends where its figures do.
proof fn lemma_number_end(
    json: Seq<u8>,
    start: int,
    negative: bool,
    whole: Seq<u8>,
    fraction: Option<Seq<u8>>,
)
    requires
        are_digits(whole),
        whole.len() > 0,
        are_digits(behind(fraction)),
        bytes::occurs_at(json, minus(negative) + figures(whole, fraction), start),
        number_stops(json, start + (minus(negative) + figures(whole, fraction)).len()),
    ensures
        json.subrange(start, scan::number_end(json, start)) == minus(negative) + figures(
            whole,
            fraction,
        ),
{
    let m = figures(whole, fraction);
    let token = minus(negative) + m;
    let from = start + minus(negative).len();
    let end = start + token.len();
    let f = behind(fraction);
    let digits = whole + f;
    let part = json.subrange(start, end);
    assert(part == token);
    lemma_figures(whole, fraction);
    lemma_sign(negative, m);
    assert forall|k: int| 0 <= k < m.len() implies json[from + k] == #[trigger] m[k] by {
        assert(token[minus(negative).len() + k] == m[k]);
        assert(part[minus(negative).len() + k] == json[from + k]);
    }
    if negative {
        assert(part[0] == token[0] == 45);
    } else {
        assert(json[start] == m[0]);
    }
    assert(scan::past_sign(json, start) == from);
    let point = from + whole.len();
    assert forall|k: int| from <= k < point implies 48 <= (#[trigger] json[k]) <= 57 by {
        assert(json[from + (k - from)] == m[k - from]);
        assert(m[k - from] == whole[k - from]);
    }
    lemma_digit_run(json, from, point, false);
    if fraction is Some {
        assert(m[whole.len() as int] == 46);
        assert(json[point] == 46);
        assert forall|k: int| point + 1 <= k < end implies 48 <= (#[trigger] json[k]) <= 57 by {
            assert(json[from + (k - from)] == m[k - from]);
            assert(m[k - from] == f[k - point - 1]);
        }
        lemma_digit_run(json, point + 1, end, true);
        assert(scan::mantissa_end(json, point, false) == scan::mantissa_end(json, point + 1, true));
    }
    assert(scan::significand_end(json, start) == end);
    assert(scan::number_end(json, start) == end);
}

/// A decimal number without an exponent is read as what its digits say: the digits over the power of
/// ten with as many zeros as there are digits behind the point, as near as binary64 numbers come, and
/// with its sign. It is finite where it has no more than eighteen digits, seventeen of them behind the
/// point.
pub proof fn law_decimals_are_read(
    json: Seq<u8>,
    start: int,
    negative: bool,
    whole: Seq<u8>,
    fraction: Option<Seq<u8>>,
)
    requires
        are_digits(whole),
        whole.len() > 0,
        are_digits(behind(fraction)),
        bytes::occurs_at(json, minus(negative) + figures(whole, fraction), start),
        number_stops(json, start + (minus(negative) + figures(whole, fraction)).len()),
    ensures
        numeral::double_at(json, start) is Ok,
        ({
            let value = numeral::double_at(json, start)->Ok_0;
            let (f, digits) = (behind(fraction), whole + behind(fraction));
            &&& value.negative == negative
            &&& is_finite(value) ==> is_near(
                value,
                bytes::digits_value(digits) as int,
                pow(10, f.len()),
            )
            &&& digits.len() <= 18 && f.len() <= 17 ==> is_finite(value)
        }),
{
    let m = figures(whole, fraction);
    let token = minus(negative) + m;
    let f = behind(fraction);
    let digits = whole + f;
    lemma_number_end(json, start, negative, whole, fraction);
    lemma_figures(whole, fraction);
    lemma_sign(negative, m);
    assert(numeral::without_sign(token) == m);
    let n = bytes::digits_value(digits);
    if digits.len() <= 18 && f.len() <= 17 {
        decimal::lemma_digits_value_bound(digits);
        lemma_pow_increases(10, digits.len(), 18);
        assert(pow(10, 18) == 1_000_000_000_000_000_000) by {
            reveal_with_fuel(pow, 19);
        }
        lemma_short_is_near(n, f.len());
        let value = binary64::product(
            binary64::of_integer(n as int),
            binary64::of_fraction(1, pow(10, f.len()) as nat),
        );
        let signed = numeral::with_sign(negative, value);
        assert(numeral::short_value(token) == Some(signed));
        assert(is_near(signed, n as int, pow(10, f.len()))) by {
            reveal(is_near);
        }
    } else {
        law_numerals_are_read(negative, whole, fraction);
    }
}

/// The same of a number as a text of its own, however many digits it has.
pub proof fn law_numerals_are_read(negative: bool, whole: Seq<u8>, fraction: Option<Seq<u8>>)
    requires
        are_digits(whole),
        whole.len() > 0,
        are_digits(behind(fraction)),
    ensures
        ({
            let token = minus(negative) + figures(whole, fraction);
            let (f, digits) = (behind(fraction), whole + behind(fraction));
            let value = numeral::numeral_value(token).unwrap();
            &&& numeral::numeral_value(token) is Some
            &&& value.negative == negative
            &&& is_finite(value) ==> is_near(
                value,
                bytes::digits_value(digits) as int,
                pow(10, f.len()),
            )
        }),
{
    let m = figures(whole, fraction);
    let token = minus(negative) + m;
    let f = behind(fraction);
    let digits = whole + f;
    lemma_figures(whole, fraction);
    lemma_sign(negative, m);
    bytes::lemma_first_index_is(m, 101, m.len() as int);
    bytes::lemma_first_index_is(m, 69, m.len() as int);
    assert(m.take(m.len() as int) =~= m);
    let zero = seq![48u8];
    assert(bytes::digits_value(zero) == 0) by {
        reveal_with_fuel(bytes::digits_value, 2);
    }
    assert forall|i: int| 0 <= i < zero.len() implies bytes::is_digit(#[trigger] zero[i]) by {}
    assert(bytes::all_digits(zero));
    let n = bytes::digits_value(digits);
    let value = decimal::of_decimal(negative, n, -(f.len() as int));
    assert(numeral::numeral_value(token) == Some(value));
    if is_finite(value) {
        lemma_decimal_is_near(negative, n, -(f.len() as int));
        if f.len() == 0 {
            lemma_pow0(10);
            assert(n * 1 == n);
        }
    }
}

/// A number with an exponent is its digits times the power of ten that the exponent says.
pub proof fn law_exponents_are_read(
    negative: bool,
    whole: Seq<u8>,
    fraction: Option<Seq<u8>>,
    mark: u8,
    sign: Seq<u8>,
    exponent: Seq<u8>,
)
    requires
        are_digits(whole),
        whole.len() > 0,
        are_digits(behind(fraction)),
        mark == 101 || mark == 69,
        sign == Seq::<u8>::empty() || sign == seq![43u8] || sign == seq![45u8],
        are_digits(exponent),
        exponent.len() > 0,
    ensures
        ({
            let token = minus(negative) + figures(whole, fraction) + seq![mark] + sign + exponent;
            let (f, digits) = (behind(fraction), whole + behind(fraction));
            let e = bytes::digits_value(exponent) as int;
            let power = (if sign == seq![45u8] {
                -e
            } else {
                e
            }) - f.len();
            let n = bytes::digits_value(digits) as int;
            let value = numeral::numeral_value(token).unwrap();
            &&& numeral::numeral_value(token) is Some
            &&& value.negative == negative
            &&& is_finite(value) && power >= 0 ==> is_near(value, n * pow(10, power as nat), 1)
            &&& is_finite(value) && power < 0 ==> is_near(value, n, pow(10, (-power) as nat))
        }),
{
    let head = figures(whole, fraction);
    let tail = sign + exponent;
    let m = head + seq![mark] + tail;
    let token = minus(negative) + head + seq![mark] + sign + exponent;
    let f = behind(fraction);
    assert(token =~= minus(negative) + m);
    lemma_figures(whole, fraction);
    assert(m[0] == head[0]);
    lemma_sign(negative, m);
    lemma_marked(head, mark, sign, exponent);
    lemma_are_digits(exponent);
    let e = bytes::digits_value(exponent) as int;
    let power = (if sign == seq![45u8] {
        -e
    } else {
        e
    }) - f.len();
    let n = bytes::digits_value(whole + f);
    let value = decimal::of_decimal(negative, n, power);
    assert(numeral::numeral_value(token) == Some(value));
    if is_finite(value) {
        lemma_decimal_is_near(negative, n, power);
    }
}

/// A numeral with an exponent, taken apart.
proof fn lemma_marked(head: Seq<u8>, mark: u8, sign: Seq<u8>, exponent: Seq<u8>)
    requires
        forall|k: int|
            0 <= k < head.len() ==> (48 <= (#[trigger] head[k]) <= 57 || head[k] == 46),
        mark == 101 || mark == 69,
        sign == Seq::<u8>::empty() || sign == seq![43u8] || sign == seq![45u8],
        are_digits(exponent),
        exponent.len() > 0,
    ensures
        ({
            let tail = sign + exponent;
            let m = head + seq![mark] + tail;
            &&& numeral::exponent_mark(m) == head.len()
            &&& head.len() < m.len()
            &&& m.take(head.len() as int) == head
            &&& m.skip(head.len() as int + 1) == tail
            &&& numeral::without_sign(tail) == exponent
            &&& numeral::is_negative(tail) <==> sign == seq![45u8]
        }),
{
    let tail = sign + exponent;
    let m = head + seq![mark] + tail;
    let at = head.len() as int;
    assert forall|j: int| 0 <= j < m.len() && j != at implies m[j] != 101 && m[j] != 69 by {
        if j < at {
            assert(m[j] == head[j]);
        } else {
            assert(m[j] == tail[j - at - 1]);
            if j - at - 1 >= sign.len() {
                assert(tail[j - at - 1] == exponent[j - at - 1 - sign.len()]);
            } else {
                assert(tail[j - at - 1] == sign[j - at - 1]);
            }
        }
    }
    assert(m[at] == mark);
    if mark == 101 {
        bytes::lemma_first_index_is(m, 101, at);
        bytes::lemma_first_index_is(m, 69, m.len() as int);
    } else {
        bytes::lemma_first_index_is(m, 69, at);
        bytes::lemma_first_index_is(m, 101, m.len() as int);
    }
    assert(m.take(at) =~= head);
    assert(m.skip(at + 1) =~= tail);
    assert(seq![43u8][0] == 43 && seq![45u8][0] == 45);
    if sign.len() > 0 {
        assert(tail.drop_first() =~= exponent);
        assert(tail[0] == sign[0]);
    } else {
        assert(tail =~= exponent);
        assert(48 <= exponent[0] <= 57);
    }
}

/// An integer is read as what its digits say, with its sign, where it fits in 32 bits.
pub proof fn law_integers_are_read(json: Seq<u8>, start: int, negative: bool, digits: Seq<u8>)
    requires
        are_digits(digits),
        digits.len() > 0,
        bytes::occurs_at(json, minus(negative) + digits, start),
        ({
            let end = start + (minus(negative) + digits).len();
            end < json.len() ==> !(48 <= json[end] <= 57)
        }),
        bytes::digits_value(digits) < 0x8000_0000,
    ensures
        numeral::int_at(json, start) is Ok,
        numeral::int_at(json, start)->Ok_0 == (if negative {
            -bytes::digits_value(digits)
        } else {
            bytes::digits_value(digits) as int
        }),
{
    let token = minus(negative) + digits;
    let from = start + minus(negative).len();
    let end = start + token.len();
    let part = json.subrange(start, end);
    assert(part == token);
    assert forall|k: int| from <= k < end implies 48 <= (#[trigger] json[k]) <= 57 by {
        assert(part[k - start] == json[k]);
        assert(token[k - start] == digits[k - from]);
    }
    if negative {
        assert(part[0] == token[0] == 45);
    }
    lemma_digit_run(json, from, end, false);
    assert(scan::digits_end(json, from) == end);
    assert(json.subrange(from, end) =~= digits) by {
        assert forall|k: int| 0 <= k < digits.len() implies json[from + k] == #[trigger] digits[k] by {
            assert(part[from - start + k] == json[from + k]);
            assert(token[from - start + k] == digits[k]);
        }
    }
}

proof fn lemma_plain_run(json: Seq<u8>, i: int, to: int)
    requires
        0 <= i <= to < json.len(),
        forall|k: int| i <= k < to ==> #[trigger] json[k] != 34 && json[k] != 92,
        json[to] == 34,
    ensures
        scan::closing_quote(json, i) == to,
    decreases to - i,
{
    if i < to {
        lemma_plain_run(json, i + 1, to);
    }
}

/// A text between quotes that holds neither a quote nor a backslash is read as it is.
pub proof fn law_texts_are_read(json: Seq<u8>, start: int, text: Seq<u8>)
    requires
        forall|k: int| 0 <= k < text.len() ==> #[trigger] text[k] != 34 && text[k] != 92,
        bytes::occurs_at(json, seq![34u8] + text + seq![34u8], start),
    ensures
        numeral::string_at(json, start) is Ok,
        numeral::string_at(json, start)->Ok_0 == text,
        scan::string_end(json, start) is Ok,
        scan::string_end(json, start)->Ok_0 == start + text.len() + 2,
{
    let token = seq![34u8] + text + seq![34u8];
    let close = start + 1 + text.len();
    let part = json.subrange(start, start + token.len());
    assert(part == token);
    assert(part[0] == json[start] && token[0] == 34);
    assert forall|k: int| start + 1 <= k < close implies #[trigger] json[k] != 34 && json[k]
        != 92 by {
        assert(part[k - start] == json[k]);
        assert(token[k - start] == text[k - start - 1]);
    }
    assert(part[close - start] == json[close] && token[close - start] == 34);
    lemma_plain_run(json, start + 1, close);
    assert(json.subrange(start + 1, close) =~= text) by {
        assert forall|k: int| 0 <= k < text.len() implies json[start + 1 + k] == #[trigger] text[k] by {
            assert(part[1 + k] == json[start + 1 + k]);
            assert(token[1 + k] == text[k]);
        }
    }
}

/// Names in quotes, with a comma before each but the first.
pub open spec fn names_text(names: Seq<Seq<u8>>, first: bool) -> Seq<u8>
    decreases names.len(),
{
    if names.len() == 0 {
        Seq::empty()
    } else {
        (if first {
            Seq::<u8>::empty()
        } else {
            seq![44u8]
        }) + seq![34u8] + names[0] + seq![34u8] + names_text(names.drop_first(), false)
    }
}

/// A list of names.
pub open spec fn list_text(names: Seq<Seq<u8>>) -> Seq<u8> {
    seq![91u8] + names_text(names, true) + seq![93u8]
}

/// Names that can stand in a list as they are.
pub open spec fn are_names(names: Seq<Seq<u8>>) -> bool {
    forall|k: int, j: int|
        0 <= k < names.len() && 0 <= j < names[k].len() ==> #[trigger] names[k][j] != 34
            && names[k][j] != 93
}

/// The hashes of names.
pub open spec fn hashes(names: Seq<Seq<u8>>) -> Seq<u64> {
    Seq::new(names.len(), |k: int| helpers::hash_of(names[k]))
}

/// The first sixty-four.
pub open spec fn first_known(all: Seq<u64>) -> Seq<u64> {
    if all.len() <= 64 {
        all
    } else {
        all.take(64)
    }
}

proof fn lemma_names_read(
    json: Seq<u8>,
    i: int,
    end: int,
    names: Seq<Seq<u8>>,
    first: bool,
    known: Seq<u64>,
)
    requires
        0 <= i <= end <= json.len(),
        json.subrange(i, end) == names_text(names, first),
        are_names(names),
        known.len() <= 64,
    ensures
        single_pass::quoted_between(json, i, end, known) == Ok::<Seq<u64>, ParseError>(
            first_known(known + hashes(names)),
        ),
    decreases names.len(),
{
    let part = json.subrange(i, end);
    if names.len() == 0 {
        assert(part.len() == 0);
        assert(known + hashes(names) =~= known);
    } else {
        let name = names[0];
        let rest = names.drop_first();
        let lead = if first {
            0int
        } else {
            1
        };
        let open = i + lead;
        let close = open + 1 + name.len();
        let after = names_text(rest, false);
        assert(part.len() == lead + 2 + name.len() + after.len());
        assert(part[lead] == 34);
        assert(lead == 1 ==> part[0] == 44);
        bytes::lemma_first_index_is(part, 34, lead);
        let inner = json.subrange(open + 1, end);
        assert forall|j: int| 0 <= j < name.len() implies inner[j] != 34 by {
            assert(inner[j] == part[lead + 1 + j]);
            assert(part[lead + 1 + j] == name[j]);
            assert(names[0][j] != 34);
        }
        assert(inner[name.len() as int] == part[lead + 1 + name.len()]);
        assert(part[lead + 1 + name.len()] == 34);
        bytes::lemma_first_index_is(inner, 34, name.len() as int);
        assert(json.subrange(open + 1, close) =~= name) by {
            assert forall|j: int| 0 <= j < name.len() implies json[open + 1 + j] == #[trigger] name[j] by {
                assert(part[lead + 1 + j] == json[open + 1 + j]);
                assert(part[lead + 1 + j] == name[j]);
            }
        }
        assert(json.subrange(close + 1, end) =~= after) by {
            assert forall|j: int| 0 <= j < after.len() implies json[close + 1 + j] == #[trigger] after[j] by {
                assert(part[lead + 2 + name.len() + j] == json[close + 1 + j]);
                assert(part[lead + 2 + name.len() + j] == after[j]);
            }
        }
        assert(are_names(rest)) by {
            assert forall|k: int, j: int|
                0 <= k < rest.len() && 0 <= j < rest[k].len() implies #[trigger] rest[k][j] != 34
                && rest[k][j] != 93 by {
                assert(rest[k] == names[k + 1]);
                assert(names[k + 1][j] != 34);
            }
        }
        let next = if known.len() < 64 {
            known.push(helpers::hash_of(name))
        } else {
            known
        };
        lemma_names_read(json, close + 1, end, rest, false, next);
        let all = known + hashes(names);
        if known.len() < 64 {
            assert(next + hashes(rest) =~= all);
        } else {
            assert(first_known(next + hashes(rest)) =~= known);
            assert(first_known(all) =~= known);
        }
    }
}

proof fn lemma_no_bracket(names: Seq<Seq<u8>>, first: bool)
    requires
        are_names(names),
    ensures
        forall|j: int| 0 <= j < names_text(names, first).len() ==> #[trigger] names_text(
            names,
            first,
        )[j] != 93,
    decreases names.len(),
{
    if names.len() > 0 {
        let rest = names.drop_first();
        let name = names[0];
        assert(are_names(rest)) by {
            assert forall|k: int, j: int|
                0 <= k < rest.len() && 0 <= j < rest[k].len() implies #[trigger] rest[k][j] != 34
                && rest[k][j] != 93 by {
                assert(rest[k] == names[k + 1]);
                assert(names[k + 1][j] != 34);
            }
        }
        lemma_no_bracket(rest, false);
        let lead = if first {
            0int
        } else {
            1
        };
        let all = names_text(names, first);
        let after = names_text(rest, false);
        assert forall|j: int| 0 <= j < all.len() implies #[trigger] all[j] != 93 by {
            if lead < j <= lead + name.len() {
                assert(all[j] == name[j - lead - 1]);
                assert(names[0][j - lead - 1] != 34);
            } else if j > lead + 1 + name.len() {
                assert(all[j] == after[j - lead - 2 - name.len()]);
            }
        }
    }
}

/// A list of names is read name by name: the hashes of the first sixty-four of them, in their order,
/// are what is known.
pub proof fn law_lists_of_names_are_read(json: Seq<u8>, start: int, names: Seq<Seq<u8>>)
    requires
        are_names(names),
        bytes::occurs_at(json, list_text(names), start),
    ensures
        single_pass::known_at(json, start) == Ok::<Seq<u64>, ParseError>(
            first_known(hashes(names)),
        ),
{
    let text = list_text(names);
    let body = names_text(names, true);
    let end = start + 1 + body.len();
    let part = json.subrange(start, start + text.len());
    assert(part == text);
    assert(part[0] == json[start] && text[0] == 91);
    lemma_no_bracket(names, true);
    let tail = json.subrange(start, json.len() as int);
    assert forall|j: int| 0 <= j < 1 + body.len() implies tail[j] != 93 by {
        assert(tail[j] == part[j]);
        if j > 0 {
            assert(text[j] == body[j - 1]);
        }
    }
    let last = 1 + body.len() as int;
    assert(tail[last] == part[last]);
    assert(text[last] == 93);
    bytes::lemma_first_index_is(tail, 93, last);
    assert(json.subrange(start + 1, end) =~= body) by {
        assert forall|j: int| 0 <= j < body.len() implies json[start + 1 + j] == #[trigger] body[j] by {
            assert(part[1 + j] == json[start + 1 + j]);
            assert(text[1 + j] == body[j]);
        }
    }
    lemma_names_read(json, start + 1, end, names, true, Seq::empty());
    assert(Seq::<u64>::empty() + hashes(names) =~= hashes(names));
}

} // verus!
