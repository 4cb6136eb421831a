//! Payloads written from their members.

use vstd::prelude::*;
use vstd::string::StringSliceAdditionalSpecFns;

use crate::bytes;
use crate::vector;
use crate::vector::reorder;
use crate::vector::reorder::Part;
use crate::vector::scan;
use crate::vector::single_pass;
use crate::vector::single_pass::Section;
use crate::vector::ParseError;

verus! {

/// A member's name in quotes, and the colon behind it.
pub open spec fn name_text(name: Seq<u8>) -> Seq<u8> {
    seq!['"' as u8] + name + seq!['"' as u8, ':' as u8]
}

/// What stands between a member and the members behind it.
pub open spec fn comma(more: bool) -> Seq<u8> {
    if more {
        seq![',' as u8]
    } else {
        Seq::empty()
    }
}

/// An object's members, and the brace that closes it.
pub open spec fn members_text(members: Seq<(Seq<u8>, Seq<u8>)>) -> Seq<u8>
    decreases members.len(),
{
    if members.len() == 0 {
        seq!['}' as u8]
    } else {
        name_text(members[0].0) + members[0].1 + comma(members.len() > 1) + members_text(
            members.drop_first(),
        )
    }
}

/// The value of a member of the payload.
pub open spec fn part_text(part: Part) -> Seq<u8> {
    match part {
        Part::Object(members) => seq!['{' as u8] + members_text(members),
        Part::Text(text) => text,
    }
}

/// A payload's members, and the brace that closes it.
pub open spec fn parts_text(parts: Seq<(Seq<u8>, Part)>) -> Seq<u8>
    decreases parts.len(),
{
    if parts.len() == 0 {
        seq!['}' as u8]
    } else {
        name_text(parts[0].0) + part_text(parts[0].1) + comma(parts.len() > 1) + parts_text(
            parts.drop_first(),
        )
    }
}

/// The payload with these members.
pub open spec fn payload_text(parts: Seq<(Seq<u8>, Part)>) -> Seq<u8> {
    seq!['{' as u8] + parts_text(parts)
}

/// A name can stand in quotes as it is.
pub open spec fn is_plain(name: Seq<u8>) -> bool {
    forall|k: int|
        0 <= k < name.len() ==> (#[trigger] name[k]) != '"' as u8 && name[k] != '\\' as u8
}

/// A text is one value and nothing else.
pub open spec fn is_value(text: Seq<u8>) -> bool {
    &&& text.len() > 0
    &&& !scan::is_space(text[0])
    &&& scan::value_end(text, 0) == Ok::<int, ParseError>(text.len() as int)
}

/// The members of an object can be written.
pub open spec fn are_members(members: Seq<(Seq<u8>, Seq<u8>)>) -> bool {
    forall|k: int|
        0 <= k < members.len() ==> is_plain((#[trigger] members[k]).0) && is_value(members[k].1)
}

/// A member of a payload can be written: an object that holds fields by its members, and any other
/// value by its text.
pub open spec fn is_part(part: (Seq<u8>, Part)) -> bool {
    &&& is_plain(part.0)
    &&& match (single_pass::section_named(part.0), part.1) {
        (None, Part::Text(text)) => is_value(text),
        (Some(Section::LastTransaction), Part::Text(text)) => is_value(text) && text[0]
            == 'n' as u8,
        (Some(_), Part::Object(members)) => are_members(members),
        _ => false,
    }
}

/// A payload can be written.
pub open spec fn are_parts(parts: Seq<(Seq<u8>, Part)>) -> bool {
    forall|k: int| 0 <= k < parts.len() ==> is_part(#[trigger] parts[k])
}

/// A comma or a closing brace stands at `i`.
spec fn is_over(json: Seq<u8>, i: int) -> bool {
    scan::byte_at(json, i, ',' as u8) || scan::byte_at(json, i, '}' as u8)
}

proof fn lemma_mantissa_in_place(json: Seq<u8>, v: int, text: Seq<u8>, i: int, seen_point: bool)
    requires
        reorder::stands_at(json, v, text),
        is_over(json, v + text.len()),
        0 <= i <= text.len(),
    ensures
        scan::mantissa_end(json, v + i, seen_point) == v + scan::mantissa_end(text, i, seen_point),
    decreases text.len() - i,
{
    if i < text.len() {
        assert(text[i] == json[v + i]);
        if bytes::is_digit(text[i]) {
            lemma_mantissa_in_place(json, v, text, i + 1, seen_point);
        } else if text[i] == '.' as u8 && !seen_point {
            lemma_mantissa_in_place(json, v, text, i + 1, true);
        }
    }
}

proof fn lemma_digits_in_place(json: Seq<u8>, v: int, text: Seq<u8>, i: int)
    requires
        reorder::stands_at(json, v, text),
        is_over(json, v + text.len()),
        0 <= i <= text.len(),
    ensures
        scan::digits_end(json, v + i) == v + scan::digits_end(text, i),
    decreases text.len() - i,
{
    if i < text.len() {
        assert(text[i] == json[v + i]);
        if bytes::is_digit(text[i]) {
            lemma_digits_in_place(json, v, text, i + 1);
        }
    }
}

proof fn lemma_quote_in_place(json: Seq<u8>, v: int, text: Seq<u8>, i: int)
    requires
        reorder::stands_at(json, v, text),
        0 <= i,
        scan::closing_quote(text, i) < text.len(),
    ensures
        scan::closing_quote(json, v + i) == v + scan::closing_quote(text, i),
    decreases text.len() + 1 - i,
{
    if i < text.len() {
        assert(text[i] == json[v + i]);
        if text[i] == '\\' as u8 {
            lemma_quote_in_place(json, v, text, i + 2);
        } else if text[i] != '"' as u8 {
            lemma_quote_in_place(json, v, text, i + 1);
        }
    }
}

proof fn lemma_string_in_place(json: Seq<u8>, v: int, text: Seq<u8>, i: int)
    requires
        reorder::stands_at(json, v, text),
        0 <= i,
        scan::string_end(text, i) is Ok,
    ensures
        scan::string_end(json, v + i) == Ok::<int, ParseError>(
            v + scan::string_end(text, i)->Ok_0,
        ),
{
    assert(text[i] == json[v + i]);
    lemma_quote_in_place(json, v, text, i + 1);
}

proof fn lemma_nested_in_place(
    json: Seq<u8>,
    v: int,
    text: Seq<u8>,
    i: int,
    depth: nat,
    open: u8,
    close: u8,
)
    requires
        reorder::stands_at(json, v, text),
        0 <= i,
        scan::nested_end(text, i, depth, open, close) is Ok,
    ensures
        scan::nested_end(json, v + i, depth, open, close) == Ok::<int, ParseError>(
            v + scan::nested_end(text, i, depth, open, close)->Ok_0,
        ),
    decreases text.len() - i,
{
    if depth > 0 {
        assert(text[i] == json[v + i]);
        if text[i] == '"' as u8 {
            lemma_string_in_place(json, v, text, i);
            scan::lemma_string_end(text, i);
            let end = scan::string_end(text, i)->Ok_0;
            lemma_nested_in_place(json, v, text, end, depth, open, close);
        } else if text[i] == open {
            lemma_nested_in_place(json, v, text, i + 1, depth + 1, open, close);
        } else if text[i] == close {
            lemma_nested_in_place(json, v, text, i + 1, (depth - 1) as nat, open, close);
        } else {
            lemma_nested_in_place(json, v, text, i + 1, depth, open, close);
        }
    }
}

proof fn lemma_literal_in_place(json: Seq<u8>, v: int, text: Seq<u8>, literal: Seq<u8>)
    requires
        reorder::stands_at(json, v, text),
        scan::literal_end(text, 0, literal) is Ok,
    ensures
        scan::literal_end(json, v, literal) == Ok::<int, ParseError>(v + literal.len()),
{
    assert(json.subrange(v, v + literal.len()) =~= text.subrange(0, literal.len() as int));
}

proof fn lemma_number_in_place(json: Seq<u8>, v: int, text: Seq<u8>)
    requires
        reorder::stands_at(json, v, text),
        is_over(json, v + text.len()),
        text.len() > 0,
        scan::has_digits(text, 0),
    ensures
        scan::has_digits(json, v),
        scan::number_end(json, v) == v + scan::number_end(text, 0),
{
    assert(text[0] == json[v]);
    let s = scan::past_sign(text, 0);
    let m = scan::significand_end(text, 0);
    lemma_mantissa_in_place(json, v, text, s, false);
    scan::lemma_number_end(text, 0);
    assert(scan::significand_end(json, v) == v + m);
    let j = choose|j: int| s <= j < m && bytes::is_digit(#[trigger] text[j]);
    assert(json[v + j] == text[j]);
    if m < text.len() {
        assert(text[m] == json[v + m]);
        if m + 1 < text.len() {
            assert(text[m + 1] == json[v + m + 1]);
        }
        let x = scan::past_sign(text, m + 1);
        assert(scan::past_sign(json, v + m + 1) == v + x);
        lemma_digits_in_place(json, v, text, x);
    }
}

/// A value ends in a payload where its text ends.
proof fn lemma_value_in_place(json: Seq<u8>, v: int, text: Seq<u8>)
    requires
        reorder::stands_at(json, v, text),
        is_over(json, v + text.len()),
        is_value(text),
    ensures
        scan::value_end(json, v) == Ok::<int, ParseError>(v + text.len()),
        scan::ws_end(json, v) == v,
        json.subrange(v, v + text.len()) == text,
{
    assert(text[0] == json[v]);
    assert(scan::ws_end(text, 0) == 0);
    assert(scan::ws_end(json, v) == v);
    assert(json.subrange(v, v + text.len()) =~= text);
    let first = text[0];
    if first == '"' as u8 {
        lemma_string_in_place(json, v, text, 0);
    } else if scan::sign_at(text, 0) || bytes::is_digit(first) {
        lemma_number_in_place(json, v, text);
    } else if first == 't' as u8 {
        lemma_literal_in_place(json, v, text, "true".spec_bytes());
    } else if first == 'f' as u8 {
        lemma_literal_in_place(json, v, text, "false".spec_bytes());
    } else if first == 'n' as u8 {
        lemma_literal_in_place(json, v, text, "null".spec_bytes());
    } else if first == '{' as u8 {
        lemma_nested_in_place(json, v, text, 1, 1, '{' as u8, '}' as u8);
    } else {
        lemma_nested_in_place(json, v, text, 1, 1, '[' as u8, ']' as u8);
    }
}

proof fn lemma_plain_name(json: Seq<u8>, i: int, k: int, name: Seq<u8>)
    requires
        0 <= i,
        0 <= k <= name.len(),
        is_plain(name),
        reorder::stands_at(json, i, name),
        scan::byte_at(json, i + name.len(), '"' as u8),
    ensures
        scan::closing_quote(json, i + k) == i + name.len(),
    decreases name.len() - k,
{
    if k < name.len() {
        assert(name[k] == json[i + k]);
        lemma_plain_name(json, i, k + 1, name);
    }
}

/// A text that is made of two stands where the first does, with the second behind it.
proof fn lemma_stands_concat(json: Seq<u8>, i: int, a: Seq<u8>, b: Seq<u8>)
    requires
        reorder::stands_at(json, i, a + b),
    ensures
        reorder::stands_at(json, i, a),
        reorder::stands_at(json, i + a.len(), b),
{
    let all = a + b;
    assert forall|k: int| 0 <= k < a.len() implies #[trigger] a[k] == json[i + k] by {
        assert(all[k] == json[i + k]);
    }
    assert forall|k: int| 0 <= k < b.len() implies #[trigger] b[k] == json[i + a.len() + k] by {
        assert(all[a.len() + k] == json[i + (a.len() + k)]);
    }
}

/// A name and the colon behind it are a member's beginning.
proof fn lemma_member_begins(json: Seq<u8>, i: int, name: Seq<u8>)
    requires
        reorder::stands_at(json, i, name_text(name)),
        is_plain(name),
        i + name.len() + 3 < json.len(),
        !scan::is_space(json[i + name.len() + 3]),
    ensures
        single_pass::step_at(json, i) == (single_pass::Step::Member {
            from: i,
            to: i + name.len() + 2,
            value: i + name.len() + 3,
        }),
        json.subrange(i + 1, i + name.len() + 1) == name,
{
    let n: int = name.len() as int;
    let text = name_text(name);
    assert(text[0] == json[i]);
    assert(text[n + 1] == json[i + (n + 1)]);
    assert(text[n + 2] == json[i + (n + 2)]);
    assert(reorder::stands_at(json, i + 1, name)) by {
        assert forall|k: int| 0 <= k < n implies #[trigger] name[k] == json[i + 1 + k] by {
            assert(text[k + 1] == json[i + (k + 1)]);
        }
    }
    lemma_plain_name(json, i + 1, 0, name);
    assert(json.subrange(i + 1, i + n + 1) =~= name);
    assert(scan::ws_end(json, i) == i);
    assert(scan::ws_end(json, i + n + 2) == i + n + 2);
    assert(scan::ws_end(json, i + n + 3) == i + n + 3);
}

/// Written members start with a quote or a closing brace.
proof fn lemma_members_start(members: Seq<(Seq<u8>, Seq<u8>)>)
    ensures
        members_text(members).len() > 0,
        members_text(members)[0] == (if members.len() == 0 {
            '}' as u8
        } else {
            '"' as u8
        }),
{
}

/// An object's members read back as they were written.
proof fn lemma_members_read_back(json: Seq<u8>, i: int, members: Seq<(Seq<u8>, Seq<u8>)>)
    requires
        reorder::stands_at(json, i, members_text(members)),
        are_members(members),
    ensures
        reorder::members_of(json, i) == Some((members, i + members_text(members).len())),
    decreases members.len(),
{
    let all = members_text(members);
    if members.len() == 0 {
        assert(all[0] == json[i]);
        assert(scan::ws_end(json, i) == i);
        assert(members =~= Seq::<(Seq<u8>, Seq<u8>)>::empty());
    } else {
        let (name, text) = members[0];
        let rest = members.drop_first();
        let sep = comma(members.len() > 1);
        let tail = members_text(rest);
        let v = i + name.len() + 3;
        let end = v + text.len();
        assert(is_plain(members[0].0) && is_value(members[0].1));
        lemma_stands_concat(json, i, name_text(name) + text + sep, tail);
        lemma_stands_concat(json, i, name_text(name) + text, sep);
        lemma_stands_concat(json, i, name_text(name), text);
        lemma_members_start(rest);
        assert(tail[0] == json[end + sep.len() + 0]);
        assert(is_over(json, end)) by {
            if members.len() > 1 {
                assert(sep[0] == json[end + 0]);
            }
        }
        lemma_value_in_place(json, v, text);
        assert(text[0] == json[v + 0]);
        lemma_member_begins(json, i, name);
        assert(scan::ws_end(json, end) == end);
        assert(single_pass::after_value(json, end) == end + sep.len());
        assert(are_members(rest)) by {
            assert forall|k: int| 0 <= k < rest.len() implies is_plain((#[trigger] rest[k]).0)
                && is_value(rest[k].1) by {
                assert(members[k + 1] == rest[k]);
            }
        }
        lemma_members_read_back(json, end + sep.len(), rest);
        assert(seq![(name, text)] + rest =~= members);
    }
}

/// A member's value reads back as it was written.
proof fn lemma_part_reads_back(json: Seq<u8>, v: int, part: (Seq<u8>, Part))
    requires
        is_part(part),
        reorder::stands_at(json, v, part_text(part.1)),
        is_over(json, v + part_text(part.1).len()),
    ensures
        reorder::part_of(json, part.0, v) == Some((part.1, v + part_text(part.1).len())),
        part_text(part.1).len() > 0,
        !scan::is_space(part_text(part.1)[0]),
{
    let all = part_text(part.1);
    match part.1 {
        Part::Text(text) => {
            lemma_value_in_place(json, v, text);
            assert(text[0] == json[v + 0]);
        },
        Part::Object(members) => {
            assert(all[0] == json[v + 0]);
            lemma_stands_concat(json, v, seq!['{' as u8], members_text(members));
            lemma_members_read_back(json, v + 1, members);
        },
    }
}

proof fn lemma_parts_start(parts: Seq<(Seq<u8>, Part)>)
    ensures
        parts_text(parts).len() > 0,
        parts_text(parts)[0] == (if parts.len() == 0 {
            '}' as u8
        } else {
            '"' as u8
        }),
{
}

/// The first member of a payload reads back as it was written, and the others stand behind it.
proof fn lemma_first_part_reads_back(json: Seq<u8>, i: int, parts: Seq<(Seq<u8>, Part)>)
    requires
        reorder::stands_at(json, i, parts_text(parts)),
        parts.len() > 0,
        is_part(parts[0]),
    ensures
        ({
            let (name, part) = parts[0];
            let v = i + name.len() + 3;
            let end = v + part_text(part).len();
            let next = end + comma(parts.len() > 1).len();
            &&& single_pass::step_at(json, i) == (single_pass::Step::Member {
                from: i,
                to: i + name.len() + 2,
                value: v,
            })
            &&& json.subrange(i + 1, i + name.len() + 1) == name
            &&& reorder::part_of(json, name, v) == Some((part, end))
            &&& single_pass::after_value(json, end) == next
            &&& reorder::stands_at(json, next, parts_text(parts.drop_first()))
        }),
{
    let (name, part) = parts[0];
    let text = part_text(part);
    let rest = parts.drop_first();
    let sep = comma(parts.len() > 1);
    let tail = parts_text(rest);
    let v = i + name.len() + 3;
    let end = v + text.len();
    lemma_stands_concat(json, i, name_text(name) + text + sep, tail);
    lemma_stands_concat(json, i, name_text(name) + text, sep);
    lemma_stands_concat(json, i, name_text(name), text);
    lemma_parts_start(rest);
    assert(tail[0] == json[end + sep.len() + 0]);
    assert(is_over(json, end)) by {
        if parts.len() > 1 {
            assert(sep[0] == json[end + 0]);
        }
    }
    lemma_part_reads_back(json, v, parts[0]);
    assert(text[0] == json[v + 0]);
    lemma_member_begins(json, i, name);
    assert(scan::ws_end(json, end) == end);
    assert(single_pass::after_value(json, end) == end + sep.len());
    assert(reorder::stands_at(json, end + sep.len(), tail));
    assert(reorder::part_of(json, name, v) == Some((part, end)));
}

/// A payload's members read back as they were written.
proof fn lemma_parts_read_back(json: Seq<u8>, i: int, parts: Seq<(Seq<u8>, Part)>)
    requires
        reorder::stands_at(json, i, parts_text(parts)),
        are_parts(parts),
    ensures
        reorder::parts_of(json, i) == Some(parts),
    decreases parts.len(),
{
    if parts.len() == 0 {
        assert(parts_text(parts)[0] == json[i]);
        assert(scan::ws_end(json, i) == i);
        assert(parts =~= Seq::<(Seq<u8>, Part)>::empty());
    } else {
        let (name, part) = parts[0];
        let rest = parts.drop_first();
        let next = i + name.len() + 3 + part_text(part).len() + comma(parts.len() > 1).len();
        assert(is_part(parts[0]));
        lemma_first_part_reads_back(json, i, parts);
        assert(are_parts(rest)) by {
            assert forall|k: int| 0 <= k < rest.len() implies is_part(#[trigger] rest[k]) by {
                assert(parts[k + 1] == rest[k]);
            }
        }
        lemma_parts_read_back(json, next, rest);
        assert(seq![(name, part)] + rest =~= parts);
    }
}

/// The members of a payload read back as they were written.
pub proof fn law_written_members_read_back(parts: Seq<(Seq<u8>, Part)>)
    requires
        are_parts(parts),
    ensures
        reorder::payload_parts(payload_text(parts)) == Some(parts),
{
    let json = payload_text(parts);
    assert(json[0] == '{' as u8);
    assert(scan::ws_end(json, 0) == 0);
    assert(reorder::stands_at(json, 1, parts_text(parts))) by {
        assert forall|k: int| 0 <= k < parts_text(parts).len() implies #[trigger] parts_text(
            parts,
        )[k] == json[1 + k] by {}
    }
    lemma_parts_read_back(json, 1, parts);
}

/// A payload may be written with its members in any order.
pub proof fn law_payloads_may_be_written_in_any_order(
    a: Seq<(Seq<u8>, Part)>,
    b: Seq<(Seq<u8>, Part)>,
)
    requires
        are_parts(a),
        are_parts(b),
        reorder::reordered(a, b),
        single_pass::single_pass_outcome(payload_text(a)).1 is Ok,
    ensures
        vector::query_outcome(payload_text(b)) == vector::query_outcome(payload_text(a)),
{
    law_written_members_read_back(a);
    law_written_members_read_back(b);
    reorder::law_members_may_come_in_any_order(payload_text(a), payload_text(b));
}

} // verus!
