//! Values: numbers, dates, merchant codes, hashes, and their quantized form.

use vstd::arithmetic::power::*;
use vstd::prelude::*;

use crate::bytes;
use crate::vector::binary64;
use crate::vector::binary64::Binary64;
use crate::vector::ParseError;
use crate::QueryVector;
use crate::SCALE;

verus! {

/// A value in [-1, 1] on the fixed-point scale: -1 and below, 0 for the rest up to zero, 1 and
/// above, and in between the nearest multiple of the unit, halves up.
pub open spec fn quantized(value: Binary64) -> int {
    if value.negative && binary64::ONE <= value.magnitude <= binary64::INFINITE {
        -SCALE
    } else if value.at_most_zero() {
        0
    } else if binary64::ONE <= value.magnitude <= binary64::INFINITE {
        SCALE as int
    } else {
        binary64::product(value, binary64::of_integer(SCALE as int)).rounded_to_i16()
    }
}

/// Puts a value on the fixed-point scale.
pub fn quantize(value: Binary64) -> (r: i16)
    requires
        value.wf(),
    ensures
        r == quantized(value),
{
    if value.magnitude > binary64::INFINITE {
        value.times(Binary64::from_i64(SCALE as i64)).round_to_i16()
    } else if value.negative && value.magnitude >= binary64::ONE {
        -SCALE
    } else if value.negative || value.magnitude == 0 {
        0
    } else if value.magnitude >= binary64::ONE {
        SCALE
    } else {
        value.times(Binary64::from_i64(SCALE as i64)).round_to_i16()
    }
}

/// The seed and multiplier of `hash_bytes`.
pub const HASH_SEED: u64 = 0x517c_c1b7_2722_0a95;

/// One step of the hash: rotate, combine with a word, multiply.
pub open spec fn hash_step(hash: u64, word: nat) -> u64 {
    ((((hash << 5) | (hash >> 59)) ^ (word as u64)) as nat * HASH_SEED as nat
        % 0x1_0000_0000_0000_0000) as u64
}

/// The number whose little-endian bytes are `s`.
pub open spec fn little_endian(s: Seq<u8>) -> nat
    decreases s.len(),
{
    if s.len() == 0 {
        0
    } else {
        s[0] as nat + 256 * little_endian(s.drop_first())
    }
}

/// The hash of `s[at..]` on top of `hash`: words of eight bytes, then single bytes.
pub open spec fn hash_from(hash: u64, s: Seq<u8>, at: int) -> u64
    decreases s.len() - at,
{
    if at < 0 || at >= s.len() {
        hash
    } else if at + 8 <= s.len() {
        hash_from(hash_step(hash, little_endian(s.subrange(at, at + 8))), s, at + 8)
    } else {
        hash_from(hash_step(hash, s[at] as nat), s, at + 1)
    }
}

/// The hash of a merchant's name.
pub open spec fn hash_of(s: Seq<u8>) -> u64 {
    hash_from(HASH_SEED, s, 0)
}

fn step(hash: u64, word: u64) -> (r: u64)
    ensures
        r == hash_step(hash, word as nat),
{
    (((hash << 5) | (hash >> 59)) ^ word).wrapping_mul(HASH_SEED)
}

proof fn lemma_little_endian_8(s: Seq<u8>)
    requires
        s.len() == 8,
    ensures
        little_endian(s) == s[0] + 0x100 * s[1] + 0x1_0000 * s[2] + 0x100_0000 * s[3]
            + 0x1_0000_0000 * s[4] + 0x100_0000_0000 * s[5] + 0x1_0000_0000_0000 * s[6]
            + 0x100_0000_0000_0000 * s[7],
{
    reveal_with_fuel(little_endian, 9);
}

/// Hashes the bytes of a name.
pub fn hash_bytes(value: &[u8]) -> (r: u64)
    ensures
        r == hash_of(value@),
{
    let mut hash: u64 = HASH_SEED;
    let mut i: usize = 0;
    while i < value.len() && value.len() - i >= 8
        invariant
            i <= value@.len(),
            hash_from(hash, value@, i as int) == hash_of(value@),
        decreases value@.len() - i,
    {
        let word: u64 = value[i] as u64 + 0x100 * value[i + 1] as u64 + 0x1_0000 * value[i
            + 2] as u64 + 0x100_0000 * value[i + 3] as u64 + 0x1_0000_0000 * value[i + 4] as u64
            + 0x100_0000_0000 * value[i + 5] as u64 + 0x1_0000_0000_0000 * value[i + 6] as u64
            + 0x100_0000_0000_0000 * value[i + 7] as u64;
        proof {
            lemma_little_endian_8(value@.subrange(i as int, i + 8));
        }
        hash = step(hash, word);
        i = i + 8;
    }
    while i < value.len()
        invariant
            i <= value@.len(),
            value@.len() - i < 8,
            hash_from(hash, value@, i as int) == hash_of(value@),
        decreases value@.len() - i,
    {
        hash = step(hash, value[i] as u64);
        i = i + 1;
    }
    hash
}

/// A merchant category code: four digits, or 0 for anything else.
pub open spec fn mcc_of(mcc: Seq<u8>) -> int {
    if mcc.len() == 4 && bytes::all_digits(mcc) {
        bytes::digits_value(mcc) as int
    } else {
        0
    }
}

proof fn lemma_digits_value_4(s: Seq<u8>)
    requires
        s.len() == 4,
        bytes::all_digits(s),
    ensures
        bytes::digits_value(s) == (s[0] - 48) * 1000 + (s[1] - 48) * 100 + (s[2] - 48) * 10 + (s[3]
            - 48),
{
    reveal_with_fuel(bytes::digits_value, 5);
    assert(bytes::is_digit(s[0]) && bytes::is_digit(s[1]) && bytes::is_digit(s[2])
        && bytes::is_digit(s[3]));
}

proof fn lemma_digits_value_2(s: Seq<u8>)
    requires
        s.len() == 2,
        bytes::all_digits(s),
    ensures
        bytes::digits_value(s) == (s[0] - 48) * 10 + (s[1] - 48),
{
    reveal_with_fuel(bytes::digits_value, 3);
    assert(bytes::is_digit(s[0]) && bytes::is_digit(s[1]));
}

/// Reads a merchant category code.
pub fn parse_mcc(mcc: &[u8]) -> (r: i32)
    ensures
        r == mcc_of(mcc@),
{
    if mcc.len() != 4 {
        return 0;
    }
    match parse4(mcc, 0) {
        Ok(value) => {
            assert(mcc@.subrange(0, 4) =~= mcc@);
            value
        },
        Err(_) => {
            assert(mcc@.subrange(0, 4) =~= mcc@);
            0
        },
    }
}

/// The risk of a merchant category, in hundredths.
pub open spec fn risk_percent(mcc: int) -> nat {
    if mcc == 5411 {
        15
    } else if mcc == 5812 {
        30
    } else if mcc == 5912 {
        20
    } else if mcc == 5944 {
        45
    } else if mcc == 7801 {
        80
    } else if mcc == 7802 {
        75
    } else if mcc == 7995 {
        85
    } else if mcc == 4511 {
        35
    } else if mcc == 5311 {
        25
    } else {
        50
    }
}

/// The risk of a merchant category.
pub fn mcc_risk(mcc: i32) -> (r: Binary64)
    ensures
        r.wf(),
        r == binary64::of_fraction(risk_percent(mcc as int), 100),
{
    let percent: u64 = match mcc {
        5411 => 15,
        5812 => 30,
        5912 => 20,
        5944 => 45,
        7801 => 80,
        7802 => 75,
        7995 => 85,
        4511 => 35,
        5311 => 25,
        5999 => 50,
        _ => 50,
    };
    Binary64::from_fraction(percent, 100)
}

/// A point in time, as far as the vector needs it.
#[derive(Clone, Copy, Debug, PartialEq, Eq, Structural)]
pub struct ParsedDateTime {
    pub epoch_minute: i64,
    pub hour: i32,
    pub day_of_week: i32,
}

/// Days from 1970-01-01 to a date of the proleptic Gregorian calendar. The year is counted from
/// March. Days that a month does not have are counted on from its first.
pub open spec fn civil_days(year: int, month: int, day: int) -> int {
    let y = if month <= 2 {
        year - 1
    } else {
        year
    };
    let era = y / 400;
    let year_of_era = y % 400;
    let shifted_month = if month > 2 {
        month - 3
    } else {
        month + 9
    };
    let day_of_year = (153 * shifted_month + 2) / 5 + day - 1;
    let day_of_era = year_of_era * 365 + year_of_era / 4 - year_of_era / 100 + day_of_year;
    era * 146_097 + day_of_era - 719_468
}

/// `width` digits stand in `s` at position `at`.
pub open spec fn digits_at(s: Seq<u8>, at: int, width: int) -> bool {
    at + width <= s.len() && bytes::all_digits(s.subrange(at, at + width))
}

/// The number that `width` digits spell in `s` at position `at`.
pub open spec fn number_at(s: Seq<u8>, at: int, width: int) -> int {
    bytes::digits_value(s.subrange(at, at + width)) as int
}

/// What `YYYY?MM?DD?hh?mm` says, with any separators and anything behind it. Months and days are
/// taken as they stand.
pub open spec fn datetime_of(iso: Seq<u8>) -> Result<ParsedDateTime, ParseError> {
    if iso.len() >= 16 && digits_at(iso, 0, 4) && digits_at(iso, 5, 2) && digits_at(iso, 8, 2)
        && digits_at(iso, 11, 2) && digits_at(iso, 14, 2) {
        let days = civil_days(number_at(iso, 0, 4), number_at(iso, 5, 2), number_at(iso, 8, 2));
        Ok(
            ParsedDateTime {
                epoch_minute: (days * 1440 + number_at(iso, 11, 2) * 60 + number_at(
                    iso,
                    14,
                    2,
                )) as i64,
                hour: number_at(iso, 11, 2) as i32,
                day_of_week: ((days + 3) % 7) as i32,
            },
        )
    } else {
        Err(ParseError::InvalidValue)
    }
}

fn parse2(s: &[u8], offset: usize) -> (r: Result<i32, ParseError>)
    requires
        offset <= 0x1000_0000,
    ensures
        r == (if digits_at(s@, offset as int, 2) {
            Ok::<i32, ParseError>(number_at(s@, offset as int, 2) as i32)
        } else {
            Err::<i32, ParseError>(ParseError::InvalidValue)
        }),
        r matches Ok(v) ==> 0 <= v <= 99 && v == number_at(s@, offset as int, 2),
{
    if offset + 2 > s.len() {
        return Err(ParseError::InvalidValue);
    }
    let ghost t = s@.subrange(offset as int, offset + 2);
    let a: u8 = s[offset];
    let b: u8 = s[offset + 1];
    assert(t[0] == a && t[1] == b);
    if !(48 <= a && a <= 57) || !(48 <= b && b <= 57) {
        assert(!bytes::is_digit(t[0]) || !bytes::is_digit(t[1]));
        return Err(ParseError::InvalidValue);
    }
    proof {
        lemma_digits_value_2(t);
    }
    Ok((a - 48) as i32 * 10 + (b - 48) as i32)
}

fn parse4(s: &[u8], offset: usize) -> (r: Result<i32, ParseError>)
    requires
        offset <= 0x1000_0000,
    ensures
        r == (if digits_at(s@, offset as int, 4) {
            Ok::<i32, ParseError>(number_at(s@, offset as int, 4) as i32)
        } else {
            Err::<i32, ParseError>(ParseError::InvalidValue)
        }),
        r matches Ok(v) ==> 0 <= v <= 9999 && v == number_at(s@, offset as int, 4),
{
    if offset + 4 > s.len() {
        return Err(ParseError::InvalidValue);
    }
    let ghost t = s@.subrange(offset as int, offset + 4);
    let a: u8 = s[offset];
    let b: u8 = s[offset + 1];
    let c: u8 = s[offset + 2];
    let d: u8 = s[offset + 3];
    assert(t[0] == a && t[1] == b && t[2] == c && t[3] == d);
    if !(48 <= a && a <= 57) || !(48 <= b && b <= 57) || !(48 <= c && c <= 57) || !(48 <= d && d
        <= 57) {
        assert(!bytes::is_digit(t[0]) || !bytes::is_digit(t[1]) || !bytes::is_digit(t[2])
            || !bytes::is_digit(t[3]));
        return Err(ParseError::InvalidValue);
    }
    proof {
        lemma_digits_value_4(t);
    }
    Ok((a - 48) as i32 * 1000 + (b - 48) as i32 * 100 + (c - 48) as i32 * 10 + (d - 48) as i32)
}

fn days_from_civil(year: i32, month: i32, day: i32) -> (r: i64)
    requires
        0 <= year <= 9999,
        0 <= month <= 99,
        0 <= day <= 99,
    ensures
        r == civil_days(year as int, month as int, day as int),
        -1_000_000 <= r <= 0x1000_0000,
{
    let y: i32 = if month <= 2 {
        year - 1
    } else {
        year
    };
    let era: i32 = (if y >= 0 {
        y
    } else {
        y - 399
    }) / 400;
    assert(era == y as int / 400);
    let year_of_era: i64 = (y - era * 400) as i64;
    assert(year_of_era == y as int % 400);
    let shifted_month: i32 = if month > 2 {
        month - 3
    } else {
        month + 9
    };
    let day_of_year: i64 = (153 * shifted_month as i64 + 2) / 5 + day as i64 - 1;
    let day_of_era: i64 = year_of_era * 365 + year_of_era / 4 - year_of_era / 100 + day_of_year;
    era as i64 * 146_097 + day_of_era - 719_468
}

/// Reads a point in time.
pub fn parse_datetime(iso: &[u8]) -> (r: Result<ParsedDateTime, ParseError>)
    ensures
        r == datetime_of(iso@),
        r matches Ok(d) ==> -0x1000_0000_0000 <= d.epoch_minute <= 0x1000_0000_0000,
{
    if iso.len() < 16 {
        return Err(ParseError::InvalidValue);
    }
    let year: i32 = match parse4(iso, 0) {
        Ok(v) => v,
        Err(e) => return Err(e),
    };
    let month: i32 = match parse2(iso, 5) {
        Ok(v) => v,
        Err(e) => return Err(e),
    };
    let day: i32 = match parse2(iso, 8) {
        Ok(v) => v,
        Err(e) => return Err(e),
    };
    let hour: i32 = match parse2(iso, 11) {
        Ok(v) => v,
        Err(e) => return Err(e),
    };
    let minute: i32 = match parse2(iso, 14) {
        Ok(v) => v,
        Err(e) => return Err(e),
    };
    let days: i64 = days_from_civil(year, month, day);
    Ok(
        ParsedDateTime {
            epoch_minute: days * 1440 + hour as i64 * 60 + minute as i64,
            hour,
            day_of_week: (((days + 3) % 7 + 7) % 7) as i32,
        },
    )
}

/// A value in units of `divisor` on the fixed-point scale.
pub open spec fn scaled(value: Binary64, divisor: nat) -> i16 {
    quantized(binary64::product(value, binary64::of_fraction(1, divisor))) as i16
}

/// An integer in units of `divisor` on the fixed-point scale.
pub open spec fn scaled_integer(value: int, divisor: nat) -> i16 {
    scaled(binary64::of_integer(value), divisor)
}

/// A flag on the fixed-point scale.
pub open spec fn flag(value: bool) -> i16 {
    if value {
        SCALE
    } else {
        0
    }
}

/// The risk of the category that `mcc` names, on the fixed-point scale.
pub open spec fn risk_of(mcc: Seq<u8>) -> i16 {
    quantized(binary64::of_fraction(risk_percent(mcc_of(mcc)), 100)) as i16
}

/// The amount against ten times the customer's average.
pub open spec fn amount_ratio(amount: Binary64, average: Binary64) -> i16 {
    if average.above_zero() {
        quantized(
            binary64::quotient(binary64::quotient(amount, average), binary64::of_integer(10)),
        ) as i16
    } else {
        SCALE
    }
}

/// The vector with the two dimensions that need more than one field.
pub open spec fn finished(
    out: Seq<i16>,
    amount: Binary64,
    average: Binary64,
    merchant: u64,
    known: Seq<u64>,
) -> Seq<i16> {
    out.update(2, amount_ratio(amount, average)).update(11, flag(!known.contains(merchant)))
}

/// Puts a value in units of `divisor` on the fixed-point scale.
pub fn scale_down(value: Binary64, divisor: u64) -> (r: i16)
    requires
        value.wf(),
        divisor > 0,
    ensures
        r == scaled(value, divisor as nat),
{
    quantize(value.times(Binary64::from_fraction(1, divisor)))
}

/// Puts an integer in units of `divisor` on the fixed-point scale.
pub fn scale_down_integer(value: i64, divisor: u64) -> (r: i16)
    requires
        value > i64::MIN,
        divisor > 0,
    ensures
        r == scaled_integer(value as int, divisor as nat),
{
    scale_down(Binary64::from_i64(value), divisor)
}

/// Puts the risk of a category on the fixed-point scale.
pub fn scale_risk(mcc: &[u8]) -> (r: i16)
    ensures
        r == risk_of(mcc@),
{
    quantize(mcc_risk(parse_mcc(mcc)))
}

/// Puts a flag on the fixed-point scale.
pub fn scale_flag(value: bool) -> (r: i16)
    ensures
        r == flag(value),
{
    if value {
        SCALE
    } else {
        0
    }
}

/// Fills the two dimensions that need more than one field.
pub fn finish_vector(
    out: &mut QueryVector,
    amount: Binary64,
    customer_avg_amount: Binary64,
    merchant_hash: u64,
    known_hashes: &[u64],
)
    requires
        amount.wf(),
        customer_avg_amount.wf(),
    ensures
        final(out)@ == finished(
            old(out)@,
            amount,
            customer_avg_amount,
            merchant_hash,
            known_hashes@,
        ),
{
    out[2] = if !customer_avg_amount.negative && customer_avg_amount.magnitude > 0
        && customer_avg_amount.magnitude <= binary64::INFINITE {
        quantize(amount.over(customer_avg_amount).over(Binary64::from_u64(10)))
    } else {
        SCALE
    };
    let mut known: bool = false;
    let mut i: usize = 0;
    while i < known_hashes.len() && !known
        invariant
            i <= known_hashes@.len(),
            known == known_hashes@.take(i as int).contains(merchant_hash),
        decreases known_hashes@.len() - i,
    {
        if known_hashes[i] == merchant_hash {
            known = true;
        }
        assert(known_hashes@.take(i + 1) =~= known_hashes@.take(i as int).push(
            known_hashes@[i as int],
        ));
        assert(known == known_hashes@.take(i + 1).contains(merchant_hash)) by {
            let t = known_hashes@.take(i as int);
            let b = known_hashes@[i as int];
            if b == merchant_hash {
                assert(t.push(b)[i as int] == merchant_hash);
            } else {
                assert forall|j: int| 0 <= j < t.push(b).len() implies t.push(b)[j]
                    != merchant_hash by {
                    if j < i {
                        assert(t.push(b)[j] == t[j]);
                        assert(!t.contains(merchant_hash));
                    }
                }
            }
        }
        i = i + 1;
    }
    proof {
        if known {
            let t = known_hashes@.take(i as int);
            let j = choose|j: int| 0 <= j < t.len() && t[j] == merchant_hash;
            assert(known_hashes@[j] == merchant_hash);
        } else {
            assert(known_hashes@.take(i as int) =~= known_hashes@);
        }
    }
    out[11] = if known {
        0
    } else {
        SCALE
    };
}

} // verus!
