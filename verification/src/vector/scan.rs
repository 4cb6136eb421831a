//! Finding where JSON values end.

use vstd::prelude::*;
use vstd::string::StringSliceAdditionalSpecFns;

use crate::bytes;
use crate::vector::ParseError;

verus! {

/// Byte `i` of `json` is `b`.
pub open spec fn byte_at(json: Seq<u8>, i: int, b: u8) -> bool {
    0 <= i < json.len() && json[i] == b
}

/// Blank, line feed, carriage return or tab.
pub open spec fn is_space(b: u8) -> bool {
    b == 32 || b == 10 || b == 13 || b == 9
}

/// A sign stands at position `i`.
pub open spec fn sign_at(json: Seq<u8>, i: int) -> bool {
    byte_at(json, i, '-' as u8) || byte_at(json, i, '+' as u8)
}

/// Where the white space that starts at `i` ends.
pub open spec fn ws_end(json: Seq<u8>, i: int) -> int
    decreases json.len() - i,
{
    if 0 <= i < json.len() && is_space(json[i]) {
        ws_end(json, i + 1)
    } else {
        i
    }
}

/// Where the digits that start at `i` end.
pub open spec fn digits_end(json: Seq<u8>, i: int) -> int
    decreases json.len() - i,
{
    if 0 <= i < json.len() && bytes::is_digit(json[i]) {
        digits_end(json, i + 1)
    } else {
        i
    }
}

/// Where the digits with at most one point that start at `i` end.
pub open spec fn mantissa_end(json: Seq<u8>, i: int, seen_point: bool) -> int
    decreases json.len() - i,
{
    if 0 <= i < json.len() && bytes::is_digit(json[i]) {
        mantissa_end(json, i + 1, seen_point)
    } else if byte_at(json, i, '.' as u8) && !seen_point {
        mantissa_end(json, i + 1, true)
    } else {
        i
    }
}

/// A digit stands in `json[from..to]`.
pub open spec fn digit_between(json: Seq<u8>, from: int, to: int) -> bool {
    exists|j: int| from <= j < to && bytes::is_digit(#[trigger] json[j])
}

/// Past the sign at `i`, if there is one.
pub open spec fn past_sign(json: Seq<u8>, i: int) -> int {
    if sign_at(json, i) {
        i + 1
    } else {
        i
    }
}

/// Where the digits of the number that starts at `i` end, before its exponent.
pub open spec fn significand_end(json: Seq<u8>, i: int) -> int {
    mantissa_end(json, past_sign(json, i), false)
}

/// The number that starts at `i` has a digit before its exponent.
pub open spec fn has_digits(json: Seq<u8>, i: int) -> bool {
    digit_between(json, past_sign(json, i), significand_end(json, i))
}

/// Where the number that starts at `i` ends: a sign, digits with at most one point, and behind a
/// digit an exponent.
pub open spec fn number_end(json: Seq<u8>, i: int) -> int {
    let m = significand_end(json, i);
    if has_digits(json, i) && (byte_at(json, m, 'e' as u8) || byte_at(json, m, 'E' as u8)) {
        digits_end(json, past_sign(json, m + 1))
    } else {
        m
    }
}

/// Where the next unescaped quote stands at or behind `i`; past the end where there is none.
pub open spec fn closing_quote(json: Seq<u8>, i: int) -> int
    decreases json.len() + 1 - i,
{
    if i < 0 || i >= json.len() {
        json.len() as int
    } else if json[i] == '\\' as u8 {
        closing_quote(json, i + 2)
    } else if json[i] == '"' as u8 {
        i
    } else {
        closing_quote(json, i + 1)
    }
}

/// Where the string that starts at `i` ends.
pub open spec fn string_end(json: Seq<u8>, i: int) -> Result<int, ParseError> {
    let close = closing_quote(json, i + 1);
    if byte_at(json, i, '"' as u8) && close < json.len() {
        Ok(close + 1)
    } else {
        Err(ParseError::InvalidFormat)
    }
}

/// Where `depth` brackets that are open at `i` are all closed. Brackets in strings do not count.
pub open spec fn nested_end(json: Seq<u8>, i: int, depth: nat, open: u8, close: u8) -> Result<
    int,
    ParseError,
>
    decreases json.len() - i,
{
    if depth == 0 {
        Ok(i)
    } else if i < 0 || i >= json.len() {
        Err(ParseError::InvalidFormat)
    } else if json[i] == '"' as u8 {
        match string_end(json, i) {
            Ok(end) => {
                if end > i {
                    nested_end(json, end, depth, open, close)
                } else {
                    Err(ParseError::InvalidFormat)
                }
            },
            Err(e) => Err(e),
        }
    } else if json[i] == open {
        nested_end(json, i + 1, depth + 1, open, close)
    } else if json[i] == close {
        nested_end(json, i + 1, (depth - 1) as nat, open, close)
    } else {
        nested_end(json, i + 1, depth, open, close)
    }
}

/// Where the literal `text` that starts at `i` ends.
pub open spec fn literal_end(json: Seq<u8>, i: int, text: Seq<u8>) -> Result<int, ParseError> {
    if bytes::occurs_at(json, text, i) {
        Ok(i + text.len())
    } else {
        Err(ParseError::InvalidFormat)
    }
}

/// Where the value that starts at `i` ends.
pub open spec fn value_end(json: Seq<u8>, i: int) -> Result<int, ParseError> {
    let a = ws_end(json, i);
    if byte_at(json, a, '"' as u8) {
        string_end(json, a)
    } else if sign_at(json, a) || (0 <= a < json.len() && bytes::is_digit(json[a])) {
        if has_digits(json, a) {
            Ok(number_end(json, a))
        } else {
            Err(ParseError::InvalidValue)
        }
    } else if byte_at(json, a, 't' as u8) {
        literal_end(json, a, "true".spec_bytes())
    } else if byte_at(json, a, 'f' as u8) {
        literal_end(json, a, "false".spec_bytes())
    } else if byte_at(json, a, 'n' as u8) {
        literal_end(json, a, "null".spec_bytes())
    } else if byte_at(json, a, '{' as u8) {
        nested_end(json, a + 1, 1, '{' as u8, '}' as u8)
    } else if byte_at(json, a, '[' as u8) {
        nested_end(json, a + 1, 1, '[' as u8, ']' as u8)
    } else {
        Err(ParseError::InvalidFormat)
    }
}

pub proof fn lemma_ws_end(json: Seq<u8>, i: int)
    ensures
        ws_end(json, i) >= i,
        i <= json.len() ==> ws_end(json, i) <= json.len(),
    decreases json.len() - i,
{
    if 0 <= i < json.len() && is_space(json[i]) {
        lemma_ws_end(json, i + 1);
    }
}

pub proof fn lemma_digits_end(json: Seq<u8>, i: int)
    ensures
        digits_end(json, i) >= i,
        i <= json.len() ==> digits_end(json, i) <= json.len(),
        forall|j: int| 0 <= i <= j < digits_end(json, i) ==> bytes::is_digit(#[trigger] json[j]),
    decreases json.len() - i,
{
    if 0 <= i < json.len() && bytes::is_digit(json[i]) {
        lemma_digits_end(json, i + 1);
    }
}

pub proof fn lemma_mantissa_end(json: Seq<u8>, i: int, seen_point: bool)
    ensures
        mantissa_end(json, i, seen_point) >= i,
        i <= json.len() ==> mantissa_end(json, i, seen_point) <= json.len(),
    decreases json.len() - i,
{
    if 0 <= i < json.len() && bytes::is_digit(json[i]) {
        lemma_mantissa_end(json, i + 1, seen_point);
    } else if byte_at(json, i, '.' as u8) && !seen_point {
        lemma_mantissa_end(json, i + 1, true);
    }
}

pub proof fn lemma_number_end(json: Seq<u8>, i: int)
    requires
        0 <= i <= json.len(),
    ensures
        past_sign(json, i) <= significand_end(json, i) <= number_end(json, i) <= json.len(),
        has_digits(json, i) ==> number_end(json, i) > i,
{
    lemma_mantissa_end(json, past_sign(json, i), false);
    let m = significand_end(json, i);
    if m < json.len() {
        lemma_digits_end(json, past_sign(json, m + 1));
    }
}

pub proof fn lemma_closing_quote(json: Seq<u8>, i: int)
    ensures
        0 <= i ==> closing_quote(json, i) >= i || closing_quote(json, i) == json.len(),
        closing_quote(json, i) <= json.len(),
        closing_quote(json, i) < json.len() ==> 0 <= closing_quote(json, i) && json[closing_quote(
            json,
            i,
        )] == '"' as u8,
    decreases json.len() + 1 - i,
{
    if i < 0 || i >= json.len() {
    } else if json[i] == '\\' as u8 {
        lemma_closing_quote(json, i + 2);
    } else if json[i] != '"' as u8 {
        lemma_closing_quote(json, i + 1);
    }
}

pub proof fn lemma_string_end(json: Seq<u8>, i: int)
    ensures
        string_end(json, i) matches Ok(end) ==> i + 2 <= end <= json.len(),
{
    lemma_closing_quote(json, i + 1);
}

pub proof fn lemma_nested_end(json: Seq<u8>, i: int, depth: nat, open: u8, close: u8)
    requires
        0 <= i <= json.len(),
    ensures
        nested_end(json, i, depth, open, close) matches Ok(end) ==> i <= end <= json.len(),
    decreases json.len() - i,
{
    if depth == 0 || i >= json.len() {
    } else if json[i] == '"' as u8 {
        lemma_string_end(json, i);
        if let Ok(end) = string_end(json, i) {
            lemma_nested_end(json, end, depth, open, close);
        }
    } else if json[i] == open {
        lemma_nested_end(json, i + 1, depth + 1, open, close);
    } else if json[i] == close {
        lemma_nested_end(json, i + 1, (depth - 1) as nat, open, close);
    } else {
        lemma_nested_end(json, i + 1, depth, open, close);
    }
}

pub proof fn lemma_value_end(json: Seq<u8>, i: int)
    requires
        0 <= i <= json.len(),
    ensures
        value_end(json, i) matches Ok(end) ==> i < end <= json.len(),
{
    broadcast use vstd::utf8::is_ascii_chars_encode_utf8;

    reveal_strlit("true");
    reveal_strlit("false");
    reveal_strlit("null");
    lemma_ws_end(json, i);
    let a = ws_end(json, i);
    lemma_string_end(json, a);
    lemma_number_end(json, a);
    if a < json.len() {
        lemma_nested_end(json, a + 1, 1, '{' as u8, '}' as u8);
        lemma_nested_end(json, a + 1, 1, '[' as u8, ']' as u8);
    }
}

/// Tells whether byte `i` is `b`.
pub fn is_byte(json: &[u8], i: usize, b: u8) -> (r: bool)
    ensures
        r == byte_at(json@, i as int, b),
        r ==> i < usize::MAX,
{
    i < json.len() && json[i] == b
}

/// Tells whether `b` is white space of JSON.
pub fn is_json_whitespace(b: u8) -> (r: bool)
    ensures
        r == is_space(b),
{
    b == 32 || b == 10 || b == 13 || b == 9
}

/// Tells whether a sign stands at position `i`.
fn is_sign(json: &[u8], i: usize) -> (r: bool)
    ensures
        r == sign_at(json@, i as int),
        r ==> i < usize::MAX,
{
    i < json.len() && (json[i] == 45 || json[i] == 43)
}

/// Tells whether `b` is an ASCII decimal digit.
pub fn is_ascii_digit(b: u8) -> (r: bool)
    ensures
        r == bytes::is_digit(b),
{
    48 <= b && b <= 57
}

/// Skips white space.
pub fn skip_ws(json: &[u8], i: usize) -> (r: usize)
    ensures
        r == ws_end(json@, i as int),
        i <= r,
        i <= json@.len() ==> r <= json@.len(),
{
    let mut j: usize = i;
    while j < json.len() && is_json_whitespace(json[j])
        invariant
            i <= j,
            i <= json@.len() ==> j <= json@.len(),
            ws_end(json@, j as int) == ws_end(json@, i as int),
        decreases json@.len() - j,
    {
        j = j + 1;
    }
    j
}

/// Skips digits.
pub fn skip_digits(json: &[u8], i: usize) -> (r: usize)
    requires
        i <= json@.len(),
    ensures
        r == digits_end(json@, i as int),
        i <= r <= json@.len(),
{
    let mut j: usize = i;
    while j < json.len() && is_ascii_digit(json[j])
        invariant
            i <= j <= json@.len(),
            digits_end(json@, j as int) == digits_end(json@, i as int),
        decreases json@.len() - j,
    {
        j = j + 1;
    }
    j
}

/// Skips a sign and digits with at most one point, and tells whether there was a digit.
pub fn skip_significand(json: &[u8], i: usize) -> (r: (usize, bool))
    requires
        i <= json@.len(),
    ensures
        r.0 == significand_end(json@, i as int),
        r.1 == has_digits(json@, i as int),
        i <= r.0 <= json@.len(),
{
    let start: usize = if is_sign(json, i) {
        i + 1
    } else {
        i
    };
    let mut j: usize = start;
    let mut seen_point: bool = false;
    let mut seen_digit: bool = false;
    while j < json.len() && (is_ascii_digit(json[j]) || (json[j] == 46 && !seen_point))
        invariant
            i <= start <= j <= json@.len(),
            start == past_sign(json@, i as int),
            mantissa_end(json@, j as int, seen_point) == significand_end(json@, i as int),
            seen_digit == digit_between(json@, start as int, j as int),
        decreases json@.len() - j,
    {
        if is_ascii_digit(json[j]) {
            seen_digit = true;
            assert(bytes::is_digit(json@[j as int]));
        } else {
            seen_point = true;
            assert(seen_digit == digit_between(json@, start as int, j + 1));
        }
        j = j + 1;
    }
    (j, seen_digit)
}

/// Skips a number, and tells whether it has a digit before its exponent.
pub fn scan_number(json: &[u8], i: usize) -> (r: (usize, bool))
    requires
        i <= json@.len(),
    ensures
        r.0 == number_end(json@, i as int),
        r.1 == has_digits(json@, i as int),
        i <= r.0 <= json@.len(),
{
    let (m, seen_digit) = skip_significand(json, i);
    if seen_digit && m < json.len() && (json[m] == 101 || json[m] == 69) {
        let x: usize = if is_sign(json, m + 1) {
            m + 2
        } else {
            m + 1
        };
        (skip_digits(json, x), seen_digit)
    } else {
        (m, seen_digit)
    }
}

/// The position of the next unescaped quote at or behind `i`.
pub fn find_closing_quote(json: &[u8], i: usize) -> (r: Option<usize>)
    requires
        i <= json@.len(),
    ensures
        r matches Some(q) ==> q == closing_quote(json@, i as int) && i <= q < json@.len()
            && q < usize::MAX,
        r is None ==> closing_quote(json@, i as int) == json@.len(),
{
    let mut j: usize = i;
    while j < json.len()
        invariant
            i <= j <= json@.len(),
            closing_quote(json@, j as int) == closing_quote(json@, i as int),
        decreases json@.len() - j,
    {
        let b: u8 = json[j];
        if b == 92 {
            if json.len() - j < 2 {
                assert(closing_quote(json@, j + 2) == json@.len());
                return None;
            }
            j = j + 2;
        } else if b == 34 {
            return Some(j);
        } else {
            j = j + 1;
        }
    }
    None
}

/// Skips a string.
pub fn skip_string(json: &[u8], i: usize) -> (r: Result<usize, ParseError>)
    ensures
        r is Ok <==> string_end(json@, i as int) is Ok,
        r matches Ok(end) ==> string_end(json@, i as int) == Ok::<int, ParseError>(end as int) && i
            + 2 <= end <= json@.len(),
        r matches Err(e) ==> string_end(json@, i as int) == Err::<int, ParseError>(e),
{
    if !is_byte(json, i, 34) {
        return Err(ParseError::InvalidFormat);
    }
    match find_closing_quote(json, i + 1) {
        Some(close) => Ok(close + 1),
        None => Err(ParseError::InvalidFormat),
    }
}

/// Skips a number that has a digit.
pub fn skip_number(json: &[u8], i: usize) -> (r: Result<usize, ParseError>)
    ensures
        r is Ok <==> has_digits(json@, i as int),
        r matches Ok(end) ==> end == number_end(json@, i as int) && i <= end <= json@.len(),
        r matches Err(e) ==> e == ParseError::InvalidValue,
{
    if i >= json.len() {
        assert(significand_end(json@, i as int) == i);
        return Err(ParseError::InvalidValue);
    }
    let (end, seen_digit) = scan_number(json, i);
    if !seen_digit {
        Err(ParseError::InvalidValue)
    } else {
        Ok(end)
    }
}

/// Skips the literal `lit`.
pub fn skip_literal(json: &[u8], i: usize, lit: &[u8]) -> (r: Result<usize, ParseError>)
    ensures
        r is Ok <==> literal_end(json@, i as int, lit@) is Ok,
        r matches Ok(end) ==> literal_end(json@, i as int, lit@) == Ok::<int, ParseError>(
            end as int,
        ) && i <= end <= json@.len(),
        r matches Err(e) ==> literal_end(json@, i as int, lit@) == Err::<int, ParseError>(e),
{
    if bytes::matches_at(json, lit, i) {
        Ok(i + lit.len())
    } else {
        Err(ParseError::InvalidFormat)
    }
}

/// Skips to behind the bracket that closes the one open at `i`.
fn skip_nested(json: &[u8], i: usize, open: u8, close: u8) -> (r: Result<usize, ParseError>)
    requires
        1 <= i <= json@.len(),
        open != 34,
        close != 34,
        open != close,
    ensures
        r is Ok <==> nested_end(json@, i as int, 1, open, close) is Ok,
        r matches Ok(end) ==> nested_end(json@, i as int, 1, open, close) == Ok::<int, ParseError>(
            end as int,
        ) && i <= end <= json@.len(),
        r matches Err(e) ==> nested_end(json@, i as int, 1, open, close) == Err::<int, ParseError>(
            e,
        ),
{
    let mut depth: usize = 1;
    let mut j: usize = i;
    while j < json.len() && depth > 0
        invariant
            i <= j <= json@.len(),
            open != 34,
            close != 34,
            open != close,
            depth <= j,
            nested_end(json@, j as int, depth as nat, open, close) == nested_end(
                json@,
                i as int,
                1,
                open,
                close,
            ),
        decreases json@.len() - j,
    {
        let b: u8 = json[j];
        if b == 34 {
            match skip_string(json, j) {
                Ok(end) => {
                    j = end;
                },
                Err(e) => return Err(e),
            }
        } else if b == open {
            depth = depth + 1;
            j = j + 1;
        } else if b == close {
            depth = depth - 1;
            j = j + 1;
        } else {
            j = j + 1;
        }
    }
    if depth == 0 {
        Ok(j)
    } else {
        Err(ParseError::InvalidFormat)
    }
}

/// Skips a value.
pub fn skip_value(json: &[u8], i: usize) -> (r: Result<usize, ParseError>)
    ensures
        r is Ok <==> value_end(json@, i as int) is Ok,
        r matches Ok(end) ==> value_end(json@, i as int) == Ok::<int, ParseError>(end as int) && i
            <= end <= json@.len(),
        r matches Err(e) ==> value_end(json@, i as int) == Err::<int, ParseError>(e),
{
    let a: usize = skip_ws(json, i);
    if a >= json.len() {
        return Err(ParseError::InvalidFormat);
    }
    let b: u8 = json[a];
    if b == 34 {
        skip_string(json, a)
    } else if b == 45 || b == 43 || is_ascii_digit(b) {
        skip_number(json, a)
    } else if b == 116 {
        skip_literal(json, a, "true".as_bytes())
    } else if b == 102 {
        skip_literal(json, a, "false".as_bytes())
    } else if b == 110 {
        skip_literal(json, a, "null".as_bytes())
    } else if b == 123 {
        skip_nested(json, a + 1, 123, 125)
    } else if b == 91 {
        skip_nested(json, a + 1, 91, 93)
    } else {
        Err(ParseError::InvalidFormat)
    }
}

} // verus!
