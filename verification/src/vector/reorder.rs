//! The members of a payload may come in any order.

use vstd::prelude::*;
use vstd::string::StringSliceAdditionalSpecFns;

use crate::bytes;
use crate::vector;
use crate::vector::compact;
use crate::vector::helpers;
use crate::vector::laws;
use crate::vector::numeral;
use crate::vector::order;
use crate::vector::scan;
use crate::vector::single_pass;
use crate::vector::single_pass::Field;
use crate::vector::single_pass::Progress;
use crate::vector::single_pass::Section;
use crate::vector::single_pass::Step;
use crate::vector::ParseError;

verus! {

/// `text` stands in `json` at `v`.
pub open spec fn stands_at(json: Seq<u8>, v: int, text: Seq<u8>) -> bool {
    &&& 0 <= v
    &&& v + text.len() <= json.len()
    &&& forall|k: int| 0 <= k < text.len() ==> #[trigger] text[k] == json[v + k]
}

proof fn lemma_mantissa_alone(json: Seq<u8>, v: int, text: Seq<u8>, i: int, seen_point: bool)
    requires
        stands_at(json, v, text),
        0 <= i <= text.len(),
        scan::mantissa_end(json, v + i, seen_point) <= v + text.len(),
    ensures
        scan::mantissa_end(text, i, seen_point) == scan::mantissa_end(json, v + i, seen_point) - v,
    decreases text.len() - i,
{
    scan::lemma_mantissa_end(json, v + i, seen_point);
    if i < text.len() {
        assert(text[i] == json[v + i]);
        if bytes::is_digit(text[i]) {
            lemma_mantissa_alone(json, v, text, i + 1, seen_point);
        } else if text[i] == '.' as u8 && !seen_point {
            lemma_mantissa_alone(json, v, text, i + 1, true);
        }
    }
}

proof fn lemma_digits_alone(json: Seq<u8>, v: int, text: Seq<u8>, i: int)
    requires
        stands_at(json, v, text),
        0 <= i <= text.len(),
        scan::digits_end(json, v + i) <= v + text.len(),
    ensures
        scan::digits_end(text, i) == scan::digits_end(json, v + i) - v,
    decreases text.len() - i,
{
    scan::lemma_digits_end(json, v + i);
    if i < text.len() {
        assert(text[i] == json[v + i]);
        if bytes::is_digit(text[i]) {
            lemma_digits_alone(json, v, text, i + 1);
        }
    }
}

/// Digits end before digits with a point do.
proof fn lemma_digits_before_point(json: Seq<u8>, i: int, seen_point: bool)
    requires
        0 <= i,
    ensures
        scan::digits_end(json, i) <= scan::mantissa_end(json, i, seen_point),
    decreases json.len() - i,
{
    scan::lemma_mantissa_end(json, i, seen_point);
    if i < json.len() && bytes::is_digit(json[i]) {
        lemma_digits_before_point(json, i + 1, seen_point);
    }
}

proof fn lemma_quote_alone(json: Seq<u8>, v: int, text: Seq<u8>, i: int)
    requires
        stands_at(json, v, text),
        0 <= i,
        scan::closing_quote(json, v + i) < v + text.len(),
    ensures
        scan::closing_quote(text, i) == scan::closing_quote(json, v + i) - v,
    decreases text.len() + 1 - i,
{
    scan::lemma_closing_quote(json, v + i);
    if i < text.len() {
        assert(text[i] == json[v + i]);
        if text[i] == '\\' as u8 {
            lemma_quote_alone(json, v, text, i + 2);
        } else if text[i] != '"' as u8 {
            lemma_quote_alone(json, v, text, i + 1);
        }
    }
}

proof fn lemma_part_alone(json: Seq<u8>, v: int, text: Seq<u8>, from: int, to: int)
    requires
        stands_at(json, v, text),
        0 <= from <= to <= text.len(),
    ensures
        text.subrange(from, to) == json.subrange(v + from, v + to),
{
    assert(text.subrange(from, to) =~= json.subrange(v + from, v + to));
}

proof fn lemma_names_alone(
    json: Seq<u8>,
    v: int,
    text: Seq<u8>,
    i: int,
    end: int,
    known: Seq<u64>,
)
    requires
        stands_at(json, v, text),
        0 <= i,
        end <= text.len(),
    ensures
        single_pass::quoted_between(text, i, end, known) == single_pass::quoted_between(
            json,
            v + i,
            v + end,
            known,
        ),
    decreases end - i,
{
    if i < end {
        lemma_part_alone(json, v, text, i, end);
        let open = i + bytes::first_index(text.subrange(i, end), '"' as u8);
        if open < end {
            lemma_part_alone(json, v, text, open + 1, end);
            let close = open + 1 + bytes::first_index(text.subrange(open + 1, end), '"' as u8);
            if close < end {
                lemma_part_alone(json, v, text, open + 1, close);
                let next = if known.len() < compact::MAX_KNOWN {
                    known.push(helpers::hash_of(text.subrange(open + 1, close)))
                } else {
                    known
                };
                lemma_names_alone(json, v, text, close + 1, end, next);
            }
        }
    }
}

/// What ends nested values is their closing bracket.
proof fn lemma_nested_close(json: Seq<u8>, i: int, depth: nat, open: u8, close: u8)
    requires
        0 <= i,
        depth > 0,
    ensures
        scan::nested_end(json, i, depth, open, close) matches Ok(end) ==> i < end <= json.len()
            && json[end - 1] == close,
    decreases json.len() - i,
{
    if i < json.len() {
        if json[i] == '"' as u8 {
            scan::lemma_string_end(json, i);
            if let Ok(end) = scan::string_end(json, i) {
                lemma_nested_close(json, end, depth, open, close);
            }
        } else if json[i] == open {
            lemma_nested_close(json, i + 1, depth + 1, open, close);
        } else if json[i] == close {
            if depth > 1 {
                lemma_nested_close(json, i + 1, (depth - 1) as nat, open, close);
            }
        } else {
            lemma_nested_close(json, i + 1, depth, open, close);
        }
    }
}

/// The text of the value at `v`.
pub open spec fn text_at(json: Seq<u8>, v: int) -> Seq<u8> {
    json.subrange(v, scan::value_end(json, v)->Ok_0)
}

/// A value stands at `v`, with no white space before it.
spec fn value_stands(json: Seq<u8>, v: int) -> bool {
    &&& 0 <= v < json.len()
    &&& !scan::is_space(json[v])
    &&& scan::value_end(json, v) is Ok
}

proof fn lemma_text_stands(json: Seq<u8>, v: int)
    requires
        value_stands(json, v),
    ensures
        stands_at(json, v, text_at(json, v)),
        text_at(json, v).len() > 0,
        text_at(json, v)[0] == json[v],
        scan::value_end(json, v) == Ok::<int, ParseError>(v + text_at(json, v).len()),
{
    scan::lemma_value_end(json, v);
}

/// The digits of a number before its exponent end in its text where they end in place.
proof fn lemma_significand_alone(json: Seq<u8>, v: int)
    requires
        value_stands(json, v),
        scan::sign_at(json, v) || bytes::is_digit(json[v]),
    ensures
        scan::has_digits(json, v),
        scan::number_end(json, v) == v + text_at(json, v).len(),
        scan::past_sign(text_at(json, v), 0) == scan::past_sign(json, v) - v,
        scan::significand_end(text_at(json, v), 0) == scan::significand_end(json, v) - v,
        scan::significand_end(json, v) <= v + text_at(json, v).len(),
        scan::has_digits(text_at(json, v), 0),
{
    lemma_text_stands(json, v);
    let text = text_at(json, v);
    assert(scan::ws_end(json, v) == v);
    scan::lemma_number_end(json, v);
    let s = scan::past_sign(json, v) - v;
    let m = scan::significand_end(json, v);
    lemma_mantissa_alone(json, v, text, s, false);
    let j = choose|j: int| v + s <= j < m && bytes::is_digit(#[trigger] json[j]);
    assert(text[j - v] == json[j]);
}

/// A number ends in its text where it ends in place.
proof fn lemma_number_end_alone(json: Seq<u8>, v: int)
    requires
        value_stands(json, v),
    ensures
        scan::number_end(text_at(json, v), 0) == scan::number_end(json, v) - v,
        v <= scan::number_end(json, v) <= v + text_at(json, v).len(),
{
    lemma_text_stands(json, v);
    let text = text_at(json, v);
    assert(scan::ws_end(json, v) == v);
    if scan::sign_at(json, v) || bytes::is_digit(json[v]) {
        lemma_significand_alone(json, v);
        let m = scan::significand_end(json, v);
        if m < v + text.len() {
            assert(text[m - v] == json[m]);
            let x = scan::past_sign(json, m + 1);
            scan::lemma_digits_end(json, x);
            if m + 1 < v + text.len() {
                assert(text[m + 1 - v] == json[m + 1]);
            }
            lemma_digits_alone(json, v, text, x - v);
        }
    } else {
        assert(scan::mantissa_end(json, v, false) == v);
        assert(scan::mantissa_end(text, 0, false) == 0);
    }
}

/// A number is read from its text.
proof fn lemma_number_alone(json: Seq<u8>, v: int)
    requires
        value_stands(json, v),
    ensures
        numeral::double_at(json, v) == numeral::double_at(text_at(json, v), 0),
{
    lemma_text_stands(json, v);
    lemma_number_end_alone(json, v);
    lemma_part_alone(
        json,
        v,
        text_at(json, v),
        0,
        scan::number_end(text_at(json, v), 0),
    );
}

/// An integer is read from its text.
proof fn lemma_integer_alone(json: Seq<u8>, v: int)
    requires
        value_stands(json, v),
    ensures
        numeral::int_at(json, v) == numeral::int_at(text_at(json, v), 0),
{
    lemma_text_stands(json, v);
    let text = text_at(json, v);
    if scan::byte_at(json, v, '-' as u8) || bytes::is_digit(json[v]) {
        lemma_significand_alone(json, v);
        let from = numeral::past_minus(json, v);
        lemma_digits_before_point(json, from, false);
        scan::lemma_digits_end(json, from);
        lemma_digits_alone(json, v, text, from - v);
        lemma_part_alone(json, v, text, from - v, scan::digits_end(text, from - v));
    } else {
        assert(scan::digits_end(json, v) == v);
        assert(scan::digits_end(text, 0) == 0);
    }
}

/// A boolean is read from its text.
proof fn lemma_flag_alone(json: Seq<u8>, v: int)
    requires
        value_stands(json, v),
    ensures
        numeral::bool_at(json, v) == numeral::bool_at(text_at(json, v), 0),
{
    lemma_text_stands(json, v);
    let text = text_at(json, v);
    assert(scan::ws_end(json, v) == v);
    let yes = "true".spec_bytes();
    let no = "false".spec_bytes();
    reveal_strlit("true");
    reveal_strlit("false");
    assert(vstd::string::is_ascii("true"));
    assert(vstd::string::is_ascii("false"));
    if json[v] == 't' as u8 {
        assert(bytes::occurs_at(json, yes, v));
        assert(text =~= yes);
        assert(text.subrange(0, 4) =~= yes);
    } else {
        assert(json.subrange(v, v + 4)[0] == json[v] || v + 4 > json.len());
        assert(text.subrange(0, 4)[0] == text[0] || 4 > text.len());
        assert(yes[0] == 't' as u8);
        assert(!bytes::occurs_at(json, yes, v));
        assert(!bytes::occurs_at(text, yes, 0));
        if json[v] == 'f' as u8 {
            assert(bytes::occurs_at(json, no, v));
            assert(text =~= no);
            assert(text.subrange(0, 5) =~= no);
        } else {
            assert(json.subrange(v, v + 5)[0] == json[v] || v + 5 > json.len());
            assert(text.subrange(0, 5)[0] == text[0] || 5 > text.len());
            assert(no[0] == 'f' as u8);
            assert(!bytes::occurs_at(json, no, v));
            assert(!bytes::occurs_at(text, no, 0));
        }
    }
}

/// A string is read from its text.
proof fn lemma_string_alone(json: Seq<u8>, v: int)
    requires
        value_stands(json, v),
    ensures
        numeral::string_at(json, v) == numeral::string_at(text_at(json, v), 0),
{
    lemma_text_stands(json, v);
    let text = text_at(json, v);
    assert(scan::ws_end(json, v) == v);
    if json[v] == '"' as u8 {
        lemma_quote_alone(json, v, text, 1);
        lemma_part_alone(json, v, text, 1, text.len() - 1);
    }
}

/// The known merchants are read from their text.
proof fn lemma_known_alone(json: Seq<u8>, v: int)
    requires
        value_stands(json, v),
    ensures
        single_pass::known_at(json, v) == single_pass::known_at(text_at(json, v), 0),
{
    lemma_text_stands(json, v);
    let text = text_at(json, v);
    let n = text.len() as int;
    assert(scan::ws_end(json, v) == v);
    if json[v] == '[' as u8 {
        lemma_nested_close(json, v + 1, 1, '[' as u8, ']' as u8);
        let rest = json.subrange(v, json.len() as int);
        bytes::lemma_first_index(rest, ']' as u8);
        let e = bytes::first_index(rest, ']' as u8) as int;
        assert(rest[n - 1] == ']' as u8);
        assert(e <= n - 1);
        assert(text.subrange(0, n) =~= text);
        assert forall|j: int| 0 <= j < e implies text[j] != ']' as u8 by {
            assert(rest[j] != ']' as u8);
        }
        assert(text[e] == rest[e]);
        bytes::lemma_first_index_is(text, ']' as u8, e);
        lemma_names_alone(json, v, text, 1, e, Seq::empty());
    }
}

/// A field is read from the text of its value.
proof fn lemma_field_alone(json: Seq<u8>, v: int, field: Field)
    requires
        value_stands(json, v),
    ensures
        Progress::start().store(field, json, v) == Progress::start().store(
            field,
            text_at(json, v),
            0,
        ),
{
    lemma_number_alone(json, v);
    lemma_integer_alone(json, v);
    lemma_flag_alone(json, v);
    lemma_string_alone(json, v);
    lemma_known_alone(json, v);
    reveal(Progress::store);
}

/// The members of an object from `i` on, each with its name and the text of its value, and where the
/// object ends.
pub open spec fn members_of(json: Seq<u8>, i: int) -> Option<(Seq<(Seq<u8>, Seq<u8>)>, int)>
    decreases json.len() - i,
{
    if i < 0 || i > json.len() {
        None
    } else {
        match single_pass::step_at(json, i) {
            Step::End { at } => Some((Seq::empty(), at + 1)),
            Step::Broken => None,
            Step::Member { from, to, value } => match scan::value_end(json, value) {
                Ok(end) => {
                    proof {
                        single_pass::lemma_step_at(json, i);
                        scan::lemma_value_end(json, value);
                        single_pass::lemma_after_value(json, end);
                    }
                    match members_of(json, single_pass::after_value(json, end)) {
                        Some((rest, close)) => Some(
                            (
                                seq![(json.subrange(from + 1, to - 1), json.subrange(value, end))]
                                    + rest,
                                close,
                            ),
                        ),
                        None => None,
                    }
                },
                Err(_) => None,
            },
        }
    }
}

/// The value of a member of the payload: the members of an object that holds fields, or the text of
/// any other value.
pub enum Part {
    Object(Seq<(Seq<u8>, Seq<u8>)>),
    Text(Seq<u8>),
}

/// The value at `value` of the member named `key`, and where it ends.
pub open spec fn part_of(json: Seq<u8>, key: Seq<u8>, value: int) -> Option<(Part, int)> {
    let section = single_pass::section_named(key);
    if section is None || (section == Some(Section::LastTransaction) && scan::byte_at(
        json,
        value,
        'n' as u8,
    )) {
        match scan::value_end(json, value) {
            Ok(end) => Some((Part::Text(json.subrange(value, end)), end)),
            Err(_) => None,
        }
    } else if scan::byte_at(json, value, '{' as u8) {
        match members_of(json, value + 1) {
            Some((members, end)) => Some((Part::Object(members), end)),
            None => None,
        }
    } else {
        None
    }
}

proof fn lemma_members_of(json: Seq<u8>, i: int)
    requires
        0 <= i <= json.len(),
    ensures
        members_of(json, i) matches Some((members, end)) ==> i <= end <= json.len(),
    decreases json.len() - i,
{
    single_pass::lemma_step_at(json, i);
    if let Step::Member { from, to, value } = single_pass::step_at(json, i) {
        scan::lemma_value_end(json, value);
        if let Ok(end) = scan::value_end(json, value) {
            single_pass::lemma_after_value(json, end);
            lemma_members_of(json, single_pass::after_value(json, end));
        }
    }
}

pub proof fn lemma_part_of(json: Seq<u8>, key: Seq<u8>, value: int)
    requires
        0 <= value <= json.len(),
    ensures
        part_of(json, key, value) matches Some((part, end)) ==> value <= end <= json.len(),
{
    scan::lemma_value_end(json, value);
    if value < json.len() {
        lemma_members_of(json, value + 1);
    }
}

/// The members of the payload from `i` on, each with its name.
pub open spec fn parts_of(json: Seq<u8>, i: int) -> Option<Seq<(Seq<u8>, Part)>>
    decreases json.len() - i,
{
    if i < 0 || i > json.len() {
        None
    } else {
        match single_pass::step_at(json, i) {
            Step::End { at } => Some(Seq::empty()),
            Step::Broken => None,
            Step::Member { from, to, value } => {
                let key = json.subrange(from + 1, to - 1);
                match part_of(json, key, value) {
                    Some((part, end)) => {
                        proof {
                            single_pass::lemma_step_at(json, i);
                            lemma_part_of(json, key, value);
                            single_pass::lemma_after_value(json, end);
                        }
                        match parts_of(json, single_pass::after_value(json, end)) {
                            Some(rest) => Some(seq![(key, part)] + rest),
                            None => None,
                        }
                    },
                    None => None,
                }
            },
        }
    }
}

/// The members of a payload.
pub open spec fn payload_parts(json: Seq<u8>) -> Option<Seq<(Seq<u8>, Part)>> {
    let a = scan::ws_end(json, 0);
    if scan::byte_at(json, a, '{' as u8) {
        parts_of(json, a + 1)
    } else {
        None
    }
}

/// The fields among an object's members, each with its text.
pub open spec fn field_texts(members: Seq<(Seq<u8>, Seq<u8>)>, section: Section) -> Seq<(Field, Seq<u8>)>
    decreases members.len(),
{
    if members.len() == 0 {
        Seq::empty()
    } else {
        (match single_pass::field_named(section, members[0].0) {
            Some(field) => seq![(field, members[0].1)],
            None => Seq::empty(),
        }) + field_texts(members.drop_first(), section)
    }
}

/// The fields in a member of the payload, each with its text.
pub open spec fn part_texts(part: (Seq<u8>, Part)) -> Seq<(Field, Seq<u8>)> {
    match (single_pass::section_named(part.0), part.1) {
        (Some(section), Part::Object(members)) => field_texts(members, section),
        _ => Seq::empty(),
    }
}

/// The fields of a payload, each with its text.
pub open spec fn payload_texts(parts: Seq<(Seq<u8>, Part)>) -> Seq<(Field, Seq<u8>)>
    decreases parts.len(),
{
    if parts.len() == 0 {
        Seq::empty()
    } else {
        part_texts(parts[0]) + payload_texts(parts.drop_first())
    }
}

/// One of the members is the last transaction.
pub open spec fn has_last(parts: Seq<(Seq<u8>, Part)>) -> bool {
    exists|i: int|
        0 <= i < parts.len() && single_pass::section_named((#[trigger] parts[i]).0) == Some(
            Section::LastTransaction,
        )
}

/// A text has a value for the field.
pub open spec fn text_reads(field: Field, text: Seq<u8>) -> bool {
    Progress::start().store(field, text, 0).1 is None
}

/// Every field can be read from its text.
pub open spec fn texts_read(texts: Seq<(Field, Seq<u8>)>) -> bool {
    forall|k: int| 0 <= k < texts.len() ==> text_reads((#[trigger] texts[k]).0, texts[k].1)
}

/// The place of a field is one of a value that reads as the text does.
spec fn placed(json: Seq<u8>, field: (Field, int), text: (Field, Seq<u8>)) -> bool {
    &&& field.0 == text.0
    &&& Progress::start().store(field.0, json, field.1) == Progress::start().store(
        text.0,
        text.1,
        0,
    )
}

spec fn all_placed(
    json: Seq<u8>,
    fields: Seq<(Field, int)>,
    texts: Seq<(Field, Seq<u8>)>,
) -> bool {
    &&& fields.len() == texts.len()
    &&& forall|k: int| 0 <= k < fields.len() ==> placed(json, #[trigger] fields[k], texts[k])
}

proof fn lemma_all_placed_concat(
    json: Seq<u8>,
    a: Seq<(Field, int)>,
    x: Seq<(Field, Seq<u8>)>,
    b: Seq<(Field, int)>,
    y: Seq<(Field, Seq<u8>)>,
)
    requires
        all_placed(json, a, x),
        all_placed(json, b, y),
    ensures
        all_placed(json, a + b, x + y),
{
    let fields = a + b;
    let texts = x + y;
    assert forall|k: int| 0 <= k < fields.len() implies placed(
        json,
        #[trigger] fields[k],
        texts[k],
    ) by {
        if k < a.len() {
            assert(fields[k] == a[k] && texts[k] == x[k]);
        } else {
            assert(fields[k] == b[k - a.len()] && texts[k] == y[k - a.len()]);
        }
    }
}

proof fn lemma_texts_read_concat(x: Seq<(Field, Seq<u8>)>, y: Seq<(Field, Seq<u8>)>)
    ensures
        texts_read(x + y) <==> texts_read(x) && texts_read(y),
{
    let texts = x + y;
    if texts_read(x) && texts_read(y) {
        assert forall|k: int| 0 <= k < texts.len() implies text_reads(
            (#[trigger] texts[k]).0,
            texts[k].1,
        ) by {
            if k < x.len() {
                assert(texts[k] == x[k]);
            } else {
                assert(texts[k] == y[k - x.len()]);
            }
        }
    }
    if texts_read(texts) {
        assert forall|k: int| 0 <= k < x.len() implies text_reads((#[trigger] x[k]).0, x[k].1) by {
            assert(texts[k] == x[k]);
        }
        assert forall|k: int| 0 <= k < y.len() implies text_reads((#[trigger] y[k]).0, y[k].1) by {
            assert(texts[k + x.len()] == y[k]);
        }
    }
}

proof fn lemma_space_stops(json: Seq<u8>, i: int)
    requires
        0 <= i,
    ensures
        scan::ws_end(json, i) < json.len() ==> !scan::is_space(json[scan::ws_end(json, i)]),
        scan::ws_end(json, scan::ws_end(json, i)) == scan::ws_end(json, i),
    decreases json.len() - i,
{
    if i < json.len() && scan::is_space(json[i]) {
        lemma_space_stops(json, i + 1);
    }
}

/// A member's value stands where the member says.
proof fn lemma_member_value(json: Seq<u8>, i: int)
    requires
        0 <= i <= json.len(),
    ensures
        single_pass::step_at(json, i) matches Step::Member { from, to, value } ==> (scan::value_end(
            json,
            value,
        ) is Ok ==> value_stands(json, value)),
{
    single_pass::lemma_step_at(json, i);
    if let Step::Member { from, to, value } = single_pass::step_at(json, i) {
        let a = scan::ws_end(json, i);
        scan::lemma_ws_end(json, i);
        let end = scan::string_end(json, a)->Ok_0;
        scan::lemma_string_end(json, a);
        scan::lemma_ws_end(json, end);
        let colon = scan::ws_end(json, end);
        lemma_space_stops(json, colon + 1);
    }
}

/// What an object's members read as, where they can be read.
proof fn lemma_members_texts(json: Seq<u8>, i: int, section: Section)
    requires
        0 <= i <= json.len(),
    ensures
        order::members_read(json, i, section) is Some <==> (members_of(json, i) is Some
            && texts_read(field_texts(members_of(json, i).unwrap().0, section))),
        order::members_read(json, i, section) matches Some((fields, end)) ==> ({
            let (members, close) = members_of(json, i).unwrap();
            end == close && all_placed(json, fields, field_texts(members, section))
        }),
    decreases json.len() - i,
{
    single_pass::lemma_step_at(json, i);
    if let Step::Member { from, to, value } = single_pass::step_at(json, i) {
        let key = json.subrange(from + 1, to - 1);
        let field = single_pass::field_named(section, key);
        scan::lemma_value_end(json, value);
        if let Ok(end) = scan::value_end(json, value) {
            lemma_member_value(json, i);
            single_pass::lemma_after_value(json, end);
            let next = single_pass::after_value(json, end);
            lemma_members_texts(json, next, section);
            let text = json.subrange(value, end);
            assert(text == text_at(json, value));
            let head: Seq<(Field, Seq<u8>)> = match field {
                Some(f) => seq![(f, text)],
                None => Seq::empty(),
            };
            let places: Seq<(Field, int)> = match field {
                Some(f) => seq![(f, value)],
                None => Seq::empty(),
            };
            if let Some(f) = field {
                lemma_field_alone(json, value, f);
                assert(texts_read(head) <==> text_reads(f, text)) by {
                    assert(head[0] == (f, text));
                }
            }
            assert(all_placed(json, places, head));
            if let Some((members, close)) = members_of(json, next) {
                let all = members_of(json, i).unwrap().0;
                assert(all =~= seq![(key, text)] + members);
                assert(all.drop_first() =~= members);
                assert(all[0] == (key, text));
                let rest = field_texts(members, section);
                assert(field_texts(all, section) == head + rest);
                lemma_texts_read_concat(head, rest);
                if let Some((fields, stop)) = order::members_read(json, next, section) {
                    lemma_all_placed_concat(json, places, head, fields, rest);
                }
            }
        }
    }
}

/// What a member of the payload reads as, where it can be read.
proof fn lemma_part_texts(json: Seq<u8>, key: Seq<u8>, value: int)
    requires
        0 <= value <= json.len(),
    ensures
        order::section_read(json, key, value) is Some <==> (part_of(json, key, value) is Some
            && texts_read(part_texts((key, part_of(json, key, value).unwrap().0)))),
        order::section_read(json, key, value) matches Some((fields, last, end)) ==> ({
            let (part, close) = part_of(json, key, value).unwrap();
            &&& end == close
            &&& all_placed(json, fields, part_texts((key, part)))
            &&& last <==> single_pass::section_named(key) == Some(Section::LastTransaction)
        }),
{
    if let Some(section) = single_pass::section_named(key) {
        if value < json.len() {
            lemma_members_texts(json, value + 1, section);
        }
    }
}

/// What a payload reads as, where it can be read.
proof fn lemma_parts_texts(json: Seq<u8>, i: int)
    requires
        0 <= i <= json.len(),
    ensures
        order::sections_read(json, i) is Some <==> (parts_of(json, i) is Some && texts_read(
            payload_texts(parts_of(json, i).unwrap()),
        )),
        order::sections_read(json, i) matches Some((fields, last)) ==> ({
            let parts = parts_of(json, i).unwrap();
            &&& all_placed(json, fields, payload_texts(parts))
            &&& last <==> has_last(parts)
        }),
    decreases json.len() - i,
{
    single_pass::lemma_step_at(json, i);
    if let Step::Member { from, to, value } = single_pass::step_at(json, i) {
        let key = json.subrange(from + 1, to - 1);
        lemma_part_texts(json, key, value);
        if let Some((part, end)) = part_of(json, key, value) {
            lemma_part_of(json, key, value);
            single_pass::lemma_after_value(json, end);
            let next = single_pass::after_value(json, end);
            lemma_parts_texts(json, next);
            if let Some(parts) = parts_of(json, next) {
                let all = parts_of(json, i).unwrap();
                assert(all =~= seq![(key, part)] + parts);
                assert(all.drop_first() =~= parts);
                assert(all[0] == (key, part));
                let head = part_texts((key, part));
                let rest = payload_texts(parts);
                assert(payload_texts(all) == head + rest);
                lemma_texts_read_concat(head, rest);
                assert(has_last(all) <==> (single_pass::section_named(key) == Some(
                    Section::LastTransaction,
                ) || has_last(parts))) by {
                    assert forall|k: int| 0 <= k < parts.len() implies all[k + 1]
                        == #[trigger] parts[k] by {}
                    assert forall|k: int| 1 <= k < all.len() implies #[trigger] all[k] == parts[k
                        - 1] by {}
                }
                if order::section_read(json, key, value) is Some && order::sections_read(
                    json,
                    next,
                ) is Some {
                    let (fields, last, stop) = order::section_read(json, key, value).unwrap();
                    let (more, also) = order::sections_read(json, next).unwrap();
                    lemma_all_placed_concat(json, fields, head, more, rest);
                }
            }
        }
    }
}

/// One of the members gives the field with this text.
spec fn member_gives(
    members: Seq<(Seq<u8>, Seq<u8>)>,
    section: Section,
    field: Field,
    text: Seq<u8>,
) -> bool {
    exists|k: int|
        0 <= k < members.len() && single_pass::field_named(section, (#[trigger] members[k]).0)
            == Some(field) && members[k].1 == text
}

proof fn lemma_field_texts(
    members: Seq<(Seq<u8>, Seq<u8>)>,
    section: Section,
    field: Field,
    text: Seq<u8>,
)
    ensures
        field_texts(members, section).contains((field, text)) <==> member_gives(
            members,
            section,
            field,
            text,
        ),
    decreases members.len(),
{
    if members.len() > 0 {
        let rest = members.drop_first();
        lemma_field_texts(rest, section, field, text);
        let head: Seq<(Field, Seq<u8>)> = match single_pass::field_named(section, members[0].0) {
            Some(f) => seq![(f, members[0].1)],
            None => Seq::empty(),
        };
        lemma_contains_concat(head, field_texts(rest, section), (field, text));
        if head.len() > 0 {
            let f = single_pass::field_named(section, members[0].0).unwrap();
            assert(head[0] == (f, members[0].1));
        }
        if member_gives(rest, section, field, text) {
            let k = choose|k: int|
                0 <= k < rest.len() && single_pass::field_named(section, (#[trigger] rest[k]).0)
                    == Some(field) && rest[k].1 == text;
            assert(members[k + 1] == rest[k]);
        }
        if member_gives(members, section, field, text) {
            let k = choose|k: int|
                0 <= k < members.len() && single_pass::field_named(
                    section,
                    (#[trigger] members[k]).0,
                ) == Some(field) && members[k].1 == text;
            if k > 0 {
                assert(rest[k - 1] == members[k]);
            }
        }
    }
}

proof fn lemma_contains_concat(
    x: Seq<(Field, Seq<u8>)>,
    y: Seq<(Field, Seq<u8>)>,
    one: (Field, Seq<u8>),
)
    ensures
        (x + y).contains(one) <==> x.contains(one) || y.contains(one),
{
    let all = x + y;
    if all.contains(one) {
        let k = choose|k: int| 0 <= k < all.len() && all[k] == one;
        if k < x.len() {
            assert(x[k] == one);
        } else {
            assert(y[k - x.len()] == one);
        }
    }
    if x.contains(one) {
        let k = choose|k: int| 0 <= k < x.len() && x[k] == one;
        assert(all[k] == one);
    }
    if y.contains(one) {
        let k = choose|k: int| 0 <= k < y.len() && y[k] == one;
        assert(all[k + x.len()] == one);
    }
}

/// One of the payload's members gives the field with this text.
spec fn part_gives(parts: Seq<(Seq<u8>, Part)>, field: Field, text: Seq<u8>) -> bool {
    exists|i: int|
        0 <= i < parts.len() && part_texts(#[trigger] parts[i]).contains((field, text))
}

proof fn lemma_payload_texts(parts: Seq<(Seq<u8>, Part)>, field: Field, text: Seq<u8>)
    ensures
        payload_texts(parts).contains((field, text)) <==> part_gives(parts, field, text),
    decreases parts.len(),
{
    if parts.len() > 0 {
        let rest = parts.drop_first();
        lemma_payload_texts(rest, field, text);
        lemma_contains_concat(part_texts(parts[0]), payload_texts(rest), (field, text));
        if part_gives(rest, field, text) {
            let i = choose|i: int|
                0 <= i < rest.len() && part_texts(#[trigger] rest[i]).contains((field, text));
            assert(parts[i + 1] == rest[i]);
        }
        if part_gives(parts, field, text) {
            let i = choose|i: int|
                0 <= i < parts.len() && part_texts(#[trigger] parts[i]).contains((field, text));
            if i > 0 {
                assert(rest[i - 1] == parts[i]);
            }
        }
    }
}

/// No two members of an object have the same name.
pub open spec fn names_differ(members: Seq<(Seq<u8>, Seq<u8>)>) -> bool {
    forall|i: int, j: int|
        0 <= i < j < members.len() ==> (#[trigger] members[i]).0 != (#[trigger] members[j]).0
}

/// Two values are the same up to the order of the members in an object that holds fields.
pub open spec fn same_part(a: Part, b: Part) -> bool {
    match (a, b) {
        (Part::Text(x), Part::Text(y)) => x == y,
        (Part::Object(x), Part::Object(y)) => {
            &&& names_differ(x)
            &&& names_differ(y)
            &&& forall|member: (Seq<u8>, Seq<u8>)|
                #[trigger] x.contains(member) <==> y.contains(member)
        },
        _ => false,
    }
}

/// Two members of a payload are the same up to the order of the members in them.
pub open spec fn same_member(a: (Seq<u8>, Part), b: (Seq<u8>, Part)) -> bool {
    a.0 == b.0 && same_part(a.1, b.1)
}

/// Every member of `a` is one of `b`, up to the order of the members in it.
pub open spec fn all_among(a: Seq<(Seq<u8>, Part)>, b: Seq<(Seq<u8>, Part)>) -> bool {
    forall|i: int|
        0 <= i < a.len() ==> exists|j: int|
            0 <= j < b.len() && same_member(#[trigger] a[i], #[trigger] b[j])
}

/// No two members of a payload have the same name.
pub open spec fn parts_differ(parts: Seq<(Seq<u8>, Part)>) -> bool {
    forall|i: int, j: int|
        0 <= i < j < parts.len() ==> (#[trigger] parts[i]).0 != (#[trigger] parts[j]).0
}

/// Two payloads are the same up to the order of their members, and of the members in the objects that
/// hold fields; no name is there twice.
pub open spec fn reordered(a: Seq<(Seq<u8>, Part)>, b: Seq<(Seq<u8>, Part)>) -> bool {
    &&& parts_differ(a)
    &&& parts_differ(b)
    &&& all_among(a, b)
    &&& all_among(b, a)
}

/// What a member gives, the same member gives.
proof fn lemma_same_member(
    a: (Seq<u8>, Part),
    b: (Seq<u8>, Part),
    field: Field,
    text: Seq<u8>,
)
    requires
        same_member(a, b),
        part_texts(a).contains((field, text)),
    ensures
        part_texts(b).contains((field, text)),
{
    let section = single_pass::section_named(a.0).unwrap();
    let x = a.1->Object_0;
    let y = b.1->Object_0;
    lemma_field_texts(x, section, field, text);
    lemma_field_texts(y, section, field, text);
    let k = choose|k: int|
        0 <= k < x.len() && single_pass::field_named(section, (#[trigger] x[k]).0) == Some(field)
            && x[k].1 == text;
    assert(x.contains(x[k]));
    let j = choose|j: int| 0 <= j < y.len() && y[j] == x[k];
    assert(y[j] == x[k]);
}

/// What a payload gives, a reordered one gives.
proof fn lemma_all_among(
    a: Seq<(Seq<u8>, Part)>,
    b: Seq<(Seq<u8>, Part)>,
    field: Field,
    text: Seq<u8>,
)
    requires
        all_among(a, b),
        payload_texts(a).contains((field, text)),
    ensures
        payload_texts(b).contains((field, text)),
{
    lemma_payload_texts(a, field, text);
    lemma_payload_texts(b, field, text);
    let i = choose|i: int|
        0 <= i < a.len() && part_texts(#[trigger] a[i]).contains((field, text));
    let j = choose|j: int| 0 <= j < b.len() && same_member(a[i], #[trigger] b[j]);
    lemma_same_member(a[i], b[j], field, text);
}

proof fn lemma_last_among(a: Seq<(Seq<u8>, Part)>, b: Seq<(Seq<u8>, Part)>)
    requires
        all_among(a, b),
        has_last(a),
    ensures
        has_last(b),
{
    let i = choose|i: int|
        0 <= i < a.len() && single_pass::section_named((#[trigger] a[i]).0) == Some(
            Section::LastTransaction,
        );
    let j = choose|j: int| 0 <= j < b.len() && same_member(a[i], #[trigger] b[j]);
    assert(single_pass::section_named(b[j].0) == Some(Section::LastTransaction));
}

/// A field has one name, in one object.
proof fn lemma_field_has_one_name(
    s: Section,
    name: Seq<u8>,
    t: Section,
    other: Seq<u8>,
    field: Field,
)
    requires
        single_pass::field_named(s, name) == Some(field),
        single_pass::field_named(t, other) == Some(field),
    ensures
        s == t,
        name == other,
{
    reveal(single_pass::field_named);
}

/// A payload gives a field once.
proof fn lemma_given_once(
    a: Seq<(Seq<u8>, Part)>,
    b: Seq<(Seq<u8>, Part)>,
    field: Field,
    text: Seq<u8>,
    other: Seq<u8>,
)
    requires
        parts_differ(a),
        all_among(a, b),
        payload_texts(a).contains((field, text)),
        payload_texts(a).contains((field, other)),
    ensures
        text == other,
{
    lemma_payload_texts(a, field, text);
    lemma_payload_texts(a, field, other);
    let i = choose|i: int|
        0 <= i < a.len() && part_texts(#[trigger] a[i]).contains((field, text));
    let j = choose|j: int|
        0 <= j < a.len() && part_texts(#[trigger] a[j]).contains((field, other));
    let s = single_pass::section_named(a[i].0).unwrap();
    let t = single_pass::section_named(a[j].0).unwrap();
    let x = a[i].1->Object_0;
    let y = a[j].1->Object_0;
    lemma_field_texts(x, s, field, text);
    lemma_field_texts(y, t, field, other);
    let k = choose|k: int|
        0 <= k < x.len() && single_pass::field_named(s, (#[trigger] x[k]).0) == Some(field)
            && x[k].1 == text;
    let l = choose|l: int|
        0 <= l < y.len() && single_pass::field_named(t, (#[trigger] y[l]).0) == Some(field)
            && y[l].1 == other;
    lemma_field_has_one_name(s, x[k].0, t, y[l].0, field);
    assert(a[i].0 == a[j].0);
    assert(i == j);
    let n = choose|n: int| 0 <= n < b.len() && same_member(a[i], #[trigger] b[n]);
    assert(same_member(a[i], b[n]));
    assert(names_differ(x));
    assert(k == l);
}

/// Where a field's value stands last, its text is one of the texts.
proof fn lemma_last_text(
    json: Seq<u8>,
    fields: Seq<(Field, int)>,
    texts: Seq<(Field, Seq<u8>)>,
    field: Field,
) -> (text: Seq<u8>)
    requires
        all_placed(json, fields, texts),
    ensures
        match order::last_place(fields, field) {
            Some(at) => texts.contains((field, text)) && Progress::start().store(field, json, at)
                == Progress::start().store(field, text, 0),
            None => forall|other: Seq<u8>| !#[trigger] texts.contains((field, other)),
        },
    decreases fields.len(),
{
    if fields.len() == 0 {
        Seq::empty()
    } else {
        let n = fields.len() - 1;
        assert(placed(json, fields[n], texts[n]));
        if fields.last().0 == field {
            assert(texts[n] == (field, texts[n].1));
            texts[n].1
        } else {
            let front = fields.drop_last();
            let rest = texts.drop_last();
            assert forall|k: int| 0 <= k < front.len() implies placed(
                json,
                #[trigger] front[k],
                rest[k],
            ) by {
                assert(placed(json, fields[k], texts[k]));
            }
            let text = lemma_last_text(json, front, rest, field);
            if order::last_place(front, field) is Some {
                let k = choose|k: int| 0 <= k < rest.len() && rest[k] == (field, text);
                assert(texts[k] == (field, text));
            } else {
                assert forall|other: Seq<u8>| !#[trigger] texts.contains((field, other)) by {
                    if texts.contains((field, other)) {
                        let k = choose|k: int| 0 <= k < texts.len() && texts[k] == (field, other);
                        if k < n {
                            assert(rest[k] == (field, other));
                            assert(rest.contains((field, other)));
                        }
                    }
                }
            }
            text
        }
    }
}

/// The fields of a payload have the values of their texts; of a field that is there more than once, one
/// of them.
pub proof fn lemma_fields_from_texts(json: Seq<u8>, parts: Seq<(Seq<u8>, Part)>)
    requires
        payload_parts(json) == Some(parts),
        texts_read(payload_texts(parts)),
    ensures
        order::fields_read(json) is Some,
        order::fields_read(json).unwrap().1 == has_last(parts),
        forall|field: Field|
            match #[trigger] order::value_of(json, field) {
                Some(p) => exists|text: Seq<u8>| #[trigger]
                    payload_texts(parts).contains((field, text)) && p == Progress::start().store(
                        field,
                        text,
                        0,
                    ).0,
                None => forall|text: Seq<u8>| !#[trigger]
                    payload_texts(parts).contains((field, text)),
            },
{
    let start = scan::ws_end(json, 0) + 1;
    scan::lemma_ws_end(json, 0);
    lemma_parts_texts(json, start);
    let texts = payload_texts(parts);
    let (fields, last) = order::fields_read(json).unwrap();
    assert forall|field: Field|
        match #[trigger] order::value_of(json, field) {
            Some(p) => exists|text: Seq<u8>| #[trigger]
                texts.contains((field, text)) && p == Progress::start().store(field, text, 0).0,
            None => forall|text: Seq<u8>| !#[trigger] texts.contains((field, text)),
        } by {
        let text = lemma_last_text(json, fields, texts, field);
        if order::last_place(fields, field) is Some {
            assert(texts.contains((field, text)));
        }
    }
}

/// A payload that one pass takes has fields that can be read.
pub proof fn lemma_taken(json: Seq<u8>)
    requires
        single_pass::single_pass_outcome(json).1 is Ok,
    ensures
        order::fields_read(json) is Some,
{
    scan::lemma_ws_end(json, 0);
    lemma_sections_taken(json, scan::ws_end(json, 0) + 1, Progress::start());
}

/// What one pass takes has fields that can be read.
proof fn lemma_members_taken(json: Seq<u8>, i: int, section: Section, p: Progress)
    requires
        0 <= i <= json.len(),
        p.out.len() == 16,
        single_pass::members(json, i, section, p).1 is Ok,
    ensures
        order::members_read(json, i, section) is Some,
        order::members_read(json, i, section).unwrap().1 == single_pass::members(
            json,
            i,
            section,
            p,
        ).1->Ok_0,
        single_pass::members(json, i, section, p).0.out.len() == 16,
    decreases json.len() - i,
{
    single_pass::lemma_step_at(json, i);
    if let Step::Member { from, to, value } = single_pass::step_at(json, i) {
        let field = single_pass::field_named(section, json.subrange(from + 1, to - 1));
        let q = match field {
            Some(f) => p.store(f, json, value).0,
            None => p,
        };
        if let Some(f) = field {
            laws::lemma_store_changes(p, f, json, value);
        }
        scan::lemma_value_end(json, value);
        let end = scan::value_end(json, value)->Ok_0;
        single_pass::lemma_after_value(json, end);
        lemma_members_taken(json, single_pass::after_value(json, end), section, q);
    }
}

proof fn lemma_section_value_taken(json: Seq<u8>, key: Seq<u8>, value: int, p: Progress)
    requires
        0 <= value <= json.len(),
        p.out.len() == 16,
        single_pass::section_value(json, key, value, p).1 is Ok,
    ensures
        order::section_read(json, key, value) is Some,
        order::section_read(json, key, value).unwrap().2 == single_pass::section_value(
            json,
            key,
            value,
            p,
        ).1->Ok_0,
        single_pass::section_value(json, key, value, p).0.out.len() == 16,
{
    if let Some(section) = single_pass::section_named(key) {
        if scan::byte_at(json, value, '{' as u8) {
            if section == Section::LastTransaction {
                lemma_members_taken(
                    json,
                    value + 1,
                    section,
                    Progress { seen_last_transaction: true, ..p },
                );
            } else {
                lemma_members_taken(json, value + 1, section, p);
            }
        }
    }
}

proof fn lemma_sections_taken(json: Seq<u8>, i: int, p: Progress)
    requires
        0 <= i <= json.len(),
        p.out.len() == 16,
        single_pass::sections(json, i, p).1 is None,
    ensures
        order::sections_read(json, i) is Some,
    decreases json.len() - i,
{
    single_pass::lemma_step_at(json, i);
    if let Step::Member { from, to, value } = single_pass::step_at(json, i) {
        let key = json.subrange(from + 1, to - 1);
        lemma_section_value_taken(json, key, value, p);
        order::lemma_section_read(json, key, value);
        let (q, result) = single_pass::section_value(json, key, value, p);
        let end = result->Ok_0;
        single_pass::lemma_after_value(json, end);
        lemma_sections_taken(json, single_pass::after_value(json, end), q);
    }
}

/// The members of a payload may come in any order, and so may the members of the objects in it that
/// hold fields: where one pass takes a payload in which no name is there twice, the payload with its
/// members in another order, in any layout, gets the same vector.
pub proof fn law_members_may_come_in_any_order(a: Seq<u8>, b: Seq<u8>)
    requires
        single_pass::single_pass_outcome(a).1 is Ok,
        payload_parts(a) is Some,
        payload_parts(b) is Some,
        reordered(payload_parts(a).unwrap(), payload_parts(b).unwrap()),
    ensures
        single_pass::single_pass_outcome(b) == single_pass::single_pass_outcome(a),
        vector::query_outcome(b) == vector::query_outcome(a),
{
    let start_a = scan::ws_end(a, 0) + 1;
    let start_b = scan::ws_end(b, 0) + 1;
    scan::lemma_ws_end(a, 0);
    scan::lemma_ws_end(b, 0);
    lemma_sections_taken(a, start_a, Progress::start());
    lemma_parts_texts(a, start_a);
    lemma_parts_texts(b, start_b);
    let parts_a = payload_parts(a).unwrap();
    let parts_b = payload_parts(b).unwrap();
    let texts_a = payload_texts(parts_a);
    let texts_b = payload_texts(parts_b);
    assert forall|k: int| 0 <= k < texts_b.len() implies text_reads(
        (#[trigger] texts_b[k]).0,
        texts_b[k].1,
    ) by {
        let (field, text) = texts_b[k];
        assert(texts_b.contains((field, text)));
        lemma_all_among(parts_b, parts_a, field, text);
        let j = choose|j: int| 0 <= j < texts_a.len() && texts_a[j] == (field, text);
        assert(text_reads(texts_a[j].0, texts_a[j].1));
    }
    let (fields_a, last_a) = order::fields_read(a).unwrap();
    let (fields_b, last_b) = order::fields_read(b).unwrap();
    if last_a {
        lemma_last_among(parts_a, parts_b);
    }
    if last_b {
        lemma_last_among(parts_b, parts_a);
    }
    assert forall|field: Field|
        #[trigger] order::value_of(a, field) == order::value_of(b, field) by {
        let x = lemma_last_text(a, fields_a, texts_a, field);
        let y = lemma_last_text(b, fields_b, texts_b, field);
        if order::last_place(fields_a, field) is Some {
            lemma_all_among(parts_a, parts_b, field, x);
            assert(texts_b.contains((field, x)));
            lemma_given_once(parts_b, parts_a, field, x, y);
        } else if order::last_place(fields_b, field) is Some {
            lemma_all_among(parts_b, parts_a, field, y);
            assert(texts_a.contains((field, y)));
        }
    }
    order::law_vector_depends_on_field_values_alone(a, b);
    order::law_query_depends_on_field_values_alone(a, b);
}

} // verus!
