//! Reading numbers, booleans and strings at a position of a JSON text.

use vstd::arithmetic::power::*;
use vstd::prelude::*;
use vstd::string::StringSliceAdditionalSpecFns;

use crate::bytes;
use crate::vector::binary64;
use crate::vector::binary64::Binary64;
use crate::vector::decimal;
use crate::vector::scan;
use crate::vector::ParseError;

verus! {

/// The numeral starts with a minus sign.
pub open spec fn is_negative(token: Seq<u8>) -> bool {
    token.len() > 0 && token[0] == '-' as u8
}

/// The numeral without its sign.
pub open spec fn without_sign(token: Seq<u8>) -> Seq<u8> {
    if token.len() > 0 && (token[0] == '-' as u8 || token[0] == '+' as u8) {
        token.drop_first()
    } else {
        token
    }
}

/// The part of `m` before its first point.
pub open spec fn whole_part(m: Seq<u8>) -> Seq<u8> {
    m.take(bytes::first_index(m, '.' as u8) as int)
}

/// The part of `m` behind its first point.
pub open spec fn fraction_part(m: Seq<u8>) -> Seq<u8> {
    let point = bytes::first_index(m, '.' as u8) as int;
    if point < m.len() {
        m.skip(point + 1)
    } else {
        Seq::empty()
    }
}

/// The digits of `m`, without its point.
pub open spec fn digits_of(m: Seq<u8>) -> Seq<u8> {
    whole_part(m) + fraction_part(m)
}

/// `value`, or its opposite where `negative` says so.
pub open spec fn with_sign(negative: bool, value: Binary64) -> Binary64 {
    Binary64 { negative: negative != value.negative, magnitude: value.magnitude }
}

/// A numeral of at most 18 digits, at most 17 of them behind the point, and no exponent: its digits
/// times the binary64 number nearest to the power of ten.
pub open spec fn short_value(token: Seq<u8>) -> Option<Binary64> {
    let m = without_sign(token);
    let digits = digits_of(m);
    if bytes::all_digits(digits) && 1 <= digits.len() <= 18 && fraction_part(m).len() <= 17 {
        Some(
            with_sign(
                is_negative(token),
                binary64::product(
                    binary64::of_integer(bytes::digits_value(digits) as int),
                    binary64::of_fraction(1, pow(10, fraction_part(m).len()) as nat),
                ),
            ),
        )
    } else {
        None
    }
}

/// Where the exponent of a numeral is marked; its length where it has none.
pub open spec fn exponent_mark(m: Seq<u8>) -> nat {
    let lower = bytes::first_index(m, 'e' as u8);
    let upper = bytes::first_index(m, 'E' as u8);
    if lower <= upper {
        lower
    } else {
        upper
    }
}

/// Any decimal numeral: the binary64 number nearest to it.
pub open spec fn numeral_value(token: Seq<u8>) -> Option<Binary64> {
    let m = without_sign(token);
    let mark = exponent_mark(m) as int;
    let significand = m.take(mark);
    let digits = digits_of(significand);
    let exponent = if mark < m.len() {
        m.skip(mark + 1)
    } else {
        seq!['0' as u8]
    };
    let exponent_digits = without_sign(exponent);
    if bytes::all_digits(digits) && digits.len() > 0 && bytes::all_digits(exponent_digits)
        && exponent_digits.len() > 0 {
        let e = bytes::digits_value(exponent_digits) as int;
        Some(
            decimal::of_decimal(
                is_negative(token),
                bytes::digits_value(digits),
                (if is_negative(exponent) {
                    -e
                } else {
                    e
                }) - fraction_part(significand).len(),
            ),
        )
    } else {
        None
    }
}

/// The number that starts at `start`.
pub open spec fn double_at(json: Seq<u8>, start: int) -> Result<Binary64, ParseError> {
    let token = json.subrange(start, scan::number_end(json, start));
    if token.len() == 0 {
        Err(ParseError::InvalidValue)
    } else {
        match short_value(token) {
            Some(value) => Ok(value),
            None => match numeral_value(token) {
                Some(value) => Ok(value),
                None => Err(ParseError::InvalidValue),
            },
        }
    }
}

/// `value` reduced to 32 bits with a sign.
pub open spec fn wrapped(value: int) -> int {
    let low = value % 0x1_0000_0000;
    if low < 0x8000_0000 {
        low
    } else {
        low - 0x1_0000_0000
    }
}

/// Past the minus sign at `i`, if there is one.
pub open spec fn past_minus(json: Seq<u8>, i: int) -> int {
    if scan::byte_at(json, i, '-' as u8) {
        i + 1
    } else {
        i
    }
}

/// The integer that starts at `start`: a minus sign and digits, reduced to 32 bits.
pub open spec fn int_at(json: Seq<u8>, start: int) -> Result<i32, ParseError> {
    let from = past_minus(json, start);
    let to = scan::digits_end(json, from);
    if from < to {
        let value = bytes::digits_value(json.subrange(from, to)) as int;
        Ok(
            wrapped(
                if scan::byte_at(json, start, '-' as u8) {
                    -value
                } else {
                    value
                },
            ) as i32,
        )
    } else {
        Err(ParseError::InvalidValue)
    }
}

/// The boolean that starts at `start`.
pub open spec fn bool_at(json: Seq<u8>, start: int) -> Result<bool, ParseError> {
    if bytes::occurs_at(json, "true".spec_bytes(), start) {
        Ok(true)
    } else if bytes::occurs_at(json, "false".spec_bytes(), start) {
        Ok(false)
    } else {
        Err(ParseError::InvalidValue)
    }
}

/// What stands between the quotes of the string that starts at `start`, escapes and all.
pub open spec fn string_at(json: Seq<u8>, start: int) -> Result<Seq<u8>, ParseError> {
    match scan::string_end(json, start) {
        Ok(end) => Ok(json.subrange(start + 1, end - 1)),
        Err(_) => Err(ParseError::InvalidValue),
    }
}

/// `10^e`.
fn power_of_ten(e: usize) -> (r: u64)
    requires
        e <= 17,
    ensures
        r == pow(10, e as nat),
        r > 0,
{
    let mut r: u64 = 1;
    let mut i: usize = 0;
    proof {
        reveal(pow);
    }
    while i < e
        invariant
            i <= e <= 17,
            r == pow(10, i as nat),
            0 < r,
        decreases e - i,
    {
        proof {
            reveal_with_fuel(pow, 19);
            assert(pow(10, (i + 1) as nat) == 10 * pow(10, i as nat));
            lemma_pow_increases(10, (i + 1) as nat, 17);
            assert(pow(10, 17) == 100_000_000_000_000_000);
        }
        r = r * 10;
        i = i + 1;
    }
    r
}

/// The numeral without its sign, and whether the sign is a minus.
fn split_sign(token: &[u8]) -> (r: (bool, &[u8]))
    ensures
        r.0 == is_negative(token@),
        r.1@ == without_sign(token@),
{
    if token.len() > 0 && (token[0] == 45 || token[0] == 43) {
        let rest = &token[1..token.len()];
        assert(rest@ =~= token@.drop_first());
        (token[0] == 45, rest)
    } else {
        (false, token)
    }
}

/// The digits before and behind the first point.
fn split_point(m: &[u8]) -> (r: (&[u8], &[u8]))
    ensures
        r.0@ == whole_part(m@),
        r.1@ == fraction_part(m@),
        r.0@.len() + r.1@.len() <= m@.len(),
{
    let point: usize = bytes::find_byte(m, 46);
    let whole = &m[0..point];
    assert(whole@ =~= whole_part(m@));
    if point < m.len() {
        let fraction = &m[point + 1..m.len()];
        assert(fraction@ =~= fraction_part(m@));
        (whole, fraction)
    } else {
        let fraction = &m[point..point];
        assert(fraction@ =~= fraction_part(m@));
        (whole, fraction)
    }
}

proof fn lemma_all_digits_concat(a: Seq<u8>, b: Seq<u8>)
    ensures
        bytes::all_digits(a + b) == (bytes::all_digits(a) && bytes::all_digits(b)),
{
    if bytes::all_digits(a + b) {
        assert forall|i: int| 0 <= i < a.len() implies bytes::is_digit(#[trigger] a[i]) by {
            assert(bytes::is_digit((a + b)[i]));
        }
        assert forall|i: int| 0 <= i < b.len() implies bytes::is_digit(#[trigger] b[i]) by {
            assert(bytes::is_digit((a + b)[a.len() + i]));
        }
    }
    if bytes::all_digits(a) && bytes::all_digits(b) {
        assert forall|i: int| 0 <= i < (a + b).len() implies bytes::is_digit(
            #[trigger] (a + b)[i],
        ) by {
            if i < a.len() {
                assert(bytes::is_digit(a[i]));
            } else {
                assert(bytes::is_digit(b[i - a.len()]));
            }
        }
    }
}

/// Adds the digits of `s`, at most 18 in all, to those that `value` holds.
fn fold_digits(value: u64, before: Ghost<Seq<u8>>, s: &[u8]) -> (r: u64)
    requires
        bytes::all_digits(before@),
        bytes::all_digits(s@),
        before@.len() + s@.len() <= 18,
        value == bytes::digits_value(before@),
    ensures
        r == bytes::digits_value(before@ + s@),
{
    let ghost before = before@;
    let mut r: u64 = value;
    let mut i: usize = 0;
    assert(before + s@.take(0) =~= before);
    while i < s.len()
        invariant
            i <= s@.len(),
            before.len() + s@.len() <= 18,
            bytes::all_digits(before),
            bytes::all_digits(s@),
            r == bytes::digits_value(before + s@.take(i as int)),
        decreases s@.len() - i,
    {
        assert(bytes::is_digit(s@[i as int]));
        proof {
            let t = before + s@.take(i as int);
            assert(before + s@.take(i + 1) =~= t.push(s@[i as int]));
            bytes::lemma_digits_value_push(t, s@[i as int]);
            lemma_all_digits_concat(before, s@.take(i as int));
            assert(bytes::all_digits(s@.take(i as int))) by {
                assert forall|k: int| 0 <= k < i implies bytes::is_digit(
                    #[trigger] s@.take(i as int)[k],
                ) by {
                    assert(bytes::is_digit(s@[k]));
                }
            }
            decimal::lemma_digits_value_bound(t);
            lemma_pow_increases(10, t.len(), 17);
            assert(pow(10, 17) == 100_000_000_000_000_000) by {
                reveal_with_fuel(pow, 19);
            }
        }
        r = r * 10 + (s[i] - 48) as u64;
        i = i + 1;
    }
    assert(s@.take(s@.len() as int) =~= s@);
    r
}

/// Reads a short numeral without an exponent.
pub fn fast_parse_f64(s: &[u8]) -> (r: Option<Binary64>)
    ensures
        r == short_value(s@),
        r matches Some(v) ==> v.wf(),
{
    let (negative, m) = split_sign(s);
    let (whole, fraction) = split_point(m);
    proof {
        lemma_all_digits_concat(whole@, fraction@);
        assert(digits_of(m@) == whole@ + fraction@);
    }
    if whole.len() > 18 || fraction.len() > 17 || whole.len() + fraction.len() > 18 || whole.len()
        + fraction.len() == 0 {
        return None;
    }
    if !bytes::only_digits(whole) || !bytes::only_digits(fraction) {
        return None;
    }
    let head: u64 = fold_digits(0, Ghost(Seq::empty()), whole);
    assert(Seq::<u8>::empty() + whole@ =~= whole@);
    let value: u64 = fold_digits(head, Ghost(whole@), fraction);
    let factor = Binary64::from_fraction(1, power_of_ten(fraction.len()));
    let result = Binary64::from_u64(value).times(factor);
    if negative {
        Some(result.negated())
    } else {
        Some(result)
    }
}

/// Reads any decimal numeral.
pub fn parse_numeral(token: &[u8]) -> (r: Option<Binary64>)
    ensures
        r == numeral_value(token@),
        r matches Some(v) ==> v.wf(),
{
    let (negative, m) = split_sign(token);
    let lower: usize = bytes::find_byte(m, 101);
    let upper: usize = bytes::find_byte(m, 69);
    let mark: usize = if lower <= upper {
        lower
    } else {
        upper
    };
    let significand = &m[0..mark];
    assert(significand@ =~= m@.take(mark as int));
    let (whole, fraction) = split_point(significand);
    proof {
        lemma_all_digits_concat(whole@, fraction@);
        assert(digits_of(significand@) == whole@ + fraction@);
    }
    if whole.len() == 0 && fraction.len() == 0 {
        return None;
    }
    if !bytes::only_digits(whole) || !bytes::only_digits(fraction) {
        return None;
    }
    if mark < m.len() {
        let exponent = &m[mark + 1..m.len()];
        assert(exponent@ =~= m@.skip(mark + 1));
        let (exponent_negative, exponent_digits) = split_sign(exponent);
        if exponent_digits.len() == 0 || !bytes::only_digits(exponent_digits) {
            return None;
        }
        Some(decimal::nearest_decimal(negative, whole, fraction, exponent_negative, exponent_digits))
    } else {
        let zero: [u8; 1] = [48];
        assert(zero@ =~= seq!['0' as u8]);
        assert(bytes::all_digits(zero@));
        Some(decimal::nearest_decimal(negative, whole, fraction, false, &zero))
    }
}

/// Reads the number that starts at `start`.
pub fn read_double_at(json: &[u8], start: usize) -> (r: Result<Binary64, ParseError>)
    requires
        start <= json@.len(),
    ensures
        r == double_at(json@, start as int),
        r matches Ok(v) ==> v.wf(),
{
    let (end, _) = scan::scan_number(json, start);
    if end == start {
        return Err(ParseError::InvalidValue);
    }
    let token = &json[start..end];
    match fast_parse_f64(token) {
        Some(value) => Ok(value),
        None => match parse_numeral(token) {
            Some(value) => Ok(value),
            None => Err(ParseError::InvalidValue),
        },
    }
}

/// The integer that `digits` spell, reduced to 32 bits.
fn wrap_digits(digits: &[u8], negative: bool) -> (r: i32)
    requires
        bytes::all_digits(digits@),
    ensures
        r == wrapped(
            if negative {
                -(bytes::digits_value(digits@) as int)
            } else {
                bytes::digits_value(digits@) as int
            },
        ),
{
    let mut low: u64 = 0;
    let mut i: usize = 0;
    while i < digits.len()
        invariant
            i <= digits@.len(),
            bytes::all_digits(digits@),
            low < 0x1_0000_0000,
            low == bytes::digits_value(digits@.take(i as int)) % 0x1_0000_0000,
        decreases digits@.len() - i,
    {
        assert(bytes::is_digit(digits@[i as int]));
        proof {
            assert(digits@.take(i + 1) =~= digits@.take(i as int).push(digits@[i as int]));
            bytes::lemma_digits_value_push(digits@.take(i as int), digits@[i as int]);
        }
        low = (low * 10 + (digits[i] - 48) as u64) % 0x1_0000_0000;
        i = i + 1;
    }
    assert(digits@.take(digits@.len() as int) =~= digits@);
    let reduced: u64 = if negative && low > 0 {
        0x1_0000_0000 - low
    } else {
        low
    };
    if reduced < 0x8000_0000 {
        reduced as i32
    } else {
        (reduced as i64 - 0x1_0000_0000) as i32
    }
}

/// Reads the integer that starts at `start`.
pub fn read_int_at(json: &[u8], start: usize) -> (r: Result<i32, ParseError>)
    requires
        start <= json@.len(),
    ensures
        r == int_at(json@, start as int),
{
    let negative: bool = scan::is_byte(json, start, 45);
    let from: usize = if negative {
        start + 1
    } else {
        start
    };
    let to: usize = scan::skip_digits(json, from);
    if from == to {
        return Err(ParseError::InvalidValue);
    }
    let digits = &json[from..to];
    proof {
        scan::lemma_digits_end(json@, from as int);
        assert forall|i: int| 0 <= i < digits@.len() implies bytes::is_digit(
            #[trigger] digits@[i],
        ) by {
            assert(bytes::is_digit(json@[from + i]));
        }
    }
    Ok(wrap_digits(digits, negative))
}

/// Reads the boolean that starts at `start`.
pub fn read_bool_at(json: &[u8], start: usize) -> (r: Result<bool, ParseError>)
    ensures
        r == bool_at(json@, start as int),
{
    if bytes::matches_at(json, "true".as_bytes(), start) {
        Ok(true)
    } else if bytes::matches_at(json, "false".as_bytes(), start) {
        Ok(false)
    } else {
        Err(ParseError::InvalidValue)
    }
}

/// Reads the string that starts at `start`, escapes and all.
pub fn read_string_at(json: &[u8], start: usize) -> (r: Result<&[u8], ParseError>)
    ensures
        r is Ok <==> string_at(json@, start as int) is Ok,
        r matches Ok(s) ==> string_at(json@, start as int) == Ok::<Seq<u8>, ParseError>(s@),
        r matches Err(e) ==> string_at(json@, start as int) == Err::<Seq<u8>, ParseError>(e),
{
    match scan::skip_string(json, start) {
        Ok(end) => Ok(&json[start + 1..end - 1]),
        Err(_) => Err(ParseError::InvalidValue),
    }
}

} // verus!
