//! The vector of a payload depends on the values of its fields alone.

use vstd::prelude::*;

use crate::vector;
use crate::vector::agreement;
use crate::vector::compact;
use crate::vector::laws;
use crate::vector::scan;
use crate::vector::single_pass;
use crate::vector::single_pass::Field;
use crate::vector::single_pass::Progress;
use crate::vector::single_pass::Section;
use crate::vector::single_pass::Step;
use crate::vector::ParseError;

verus! {

/// The fields that an object's members from `i` on give, each with the place of its value, and where
/// the object ends; nothing where something is wrong.
pub open spec fn members_read(json: Seq<u8>, i: int, section: Section) -> Option<
    (Seq<(Field, int)>, int),
>
    decreases json.len() - i,
{
    if i < 0 || i > json.len() {
        None
    } else {
        match single_pass::step_at(json, i) {
            Step::End { at } => Some((Seq::empty(), at + 1)),
            Step::Broken => None,
            Step::Member { from, to, value } => {
                let field = single_pass::field_named(section, json.subrange(from + 1, to - 1));
                let wrong = field is Some && Progress::start().store(
                    field.unwrap(),
                    json,
                    value,
                ).1 is Some;
                match scan::value_end(json, value) {
                    Ok(end) => if wrong {
                        None
                    } else {
                        proof {
                            single_pass::lemma_step_at(json, i);
                            scan::lemma_value_end(json, value);
                            single_pass::lemma_after_value(json, end);
                        }
                        match members_read(json, single_pass::after_value(json, end), section) {
                            Some((rest, close)) => Some(
                                (
                                    (match field {
                                        Some(f) => seq![(f, value)],
                                        None => Seq::empty(),
                                    }) + rest,
                                    close,
                                ),
                            ),
                            None => None,
                        }
                    },
                    Err(_) => None,
                }
            },
        }
    }
}

/// The fields that a member of the payload gives, whether it is the last transaction, and where it
/// ends.
pub open spec fn section_read(json: Seq<u8>, key: Seq<u8>, value: int) -> Option<
    (Seq<(Field, int)>, bool, int),
> {
    match single_pass::section_named(key) {
        None => match scan::value_end(json, value) {
            Ok(end) => Some((Seq::empty(), false, end)),
            Err(_) => None,
        },
        Some(section) => if section == Section::LastTransaction && scan::byte_at(
            json,
            value,
            'n' as u8,
        ) {
            match scan::value_end(json, value) {
                Ok(end) => Some((Seq::empty(), true, end)),
                Err(_) => None,
            }
        } else if scan::byte_at(json, value, '{' as u8) {
            match members_read(json, value + 1, section) {
                Some((fields, end)) => Some((fields, section == Section::LastTransaction, end)),
                None => None,
            }
        } else {
            None
        },
    }
}

pub proof fn lemma_members_read(json: Seq<u8>, i: int, section: Section)
    requires
        0 <= i <= json.len(),
    ensures
        members_read(json, i, section) matches Some((fields, end)) ==> i <= end <= json.len(),
    decreases json.len() - i,
{
    single_pass::lemma_step_at(json, i);
    if let Step::Member { from, to, value } = single_pass::step_at(json, i) {
        scan::lemma_value_end(json, value);
        if let Ok(end) = scan::value_end(json, value) {
            single_pass::lemma_after_value(json, end);
            lemma_members_read(json, single_pass::after_value(json, end), section);
        }
    }
}

pub proof fn lemma_section_read(json: Seq<u8>, key: Seq<u8>, value: int)
    requires
        0 <= value <= json.len(),
    ensures
        section_read(json, key, value) matches Some((fields, last, end)) ==> value <= end
            <= json.len(),
{
    scan::lemma_value_end(json, value);
    if value < json.len() {
        if let Some(section) = single_pass::section_named(key) {
            lemma_members_read(json, value + 1, section);
        }
    }
}

/// The fields that the payload's members from `i` on give, and whether the last transaction is among
/// them.
pub open spec fn sections_read(json: Seq<u8>, i: int) -> Option<(Seq<(Field, int)>, bool)>
    decreases json.len() - i,
{
    if i < 0 || i > json.len() {
        None
    } else {
        match single_pass::step_at(json, i) {
            Step::End { at } => Some((Seq::empty(), false)),
            Step::Broken => None,
            Step::Member { from, to, value } => {
                let key = json.subrange(from + 1, to - 1);
                match section_read(json, key, value) {
                    Some((fields, last, end)) => {
                        proof {
                            single_pass::lemma_step_at(json, i);
                            lemma_section_read(json, key, value);
                            single_pass::lemma_after_value(json, end);
                        }
                        match sections_read(json, single_pass::after_value(json, end)) {
                            Some((rest, also)) => Some((fields + rest, last || also)),
                            None => None,
                        }
                    },
                    None => None,
                }
            },
        }
    }
}

/// The fields that a payload gives, in the order in which they come, each with the place of its
/// value, and whether the last transaction is there; nothing where something is wrong.
pub open spec fn fields_read(json: Seq<u8>) -> Option<(Seq<(Field, int)>, bool)> {
    let a = scan::ws_end(json, 0);
    if scan::byte_at(json, a, '{' as u8) {
        sections_read(json, a + 1)
    } else {
        None
    }
}

/// The progress after fields have been read one after the other.
spec fn replay(p: Progress, json: Seq<u8>, fields: Seq<(Field, int)>) -> Progress
    decreases fields.len(),
{
    if fields.len() == 0 {
        p
    } else {
        replay(p, json, fields.drop_last()).store(fields.last().0, json, fields.last().1).0
    }
}

/// Every field has a value.
spec fn readable(json: Seq<u8>, fields: Seq<(Field, int)>) -> bool {
    forall|k: int|
        0 <= k < fields.len() ==> Progress::start().store(
            (#[trigger] fields[k]).0,
            json,
            fields[k].1,
        ).1 is None
}

proof fn lemma_replay_concat(
    p: Progress,
    json: Seq<u8>,
    a: Seq<(Field, int)>,
    b: Seq<(Field, int)>,
)
    ensures
        replay(p, json, a + b) == replay(replay(p, json, a), json, b),
    decreases b.len(),
{
    if b.len() == 0 {
        assert(a + b =~= a);
    } else {
        assert((a + b).drop_last() =~= a + b.drop_last());
        lemma_replay_concat(p, json, a, b.drop_last());
    }
}

proof fn lemma_replay_one(p: Progress, json: Seq<u8>, field: Field, at: int)
    ensures
        replay(p, json, seq![(field, at)]) == p.store(field, json, at).0,
{
    let one = seq![(field, at)];
    assert(one.drop_last() =~= Seq::<(Field, int)>::empty());
    assert(replay(p, json, one.drop_last()) == p);
}

proof fn lemma_replay_length(p: Progress, json: Seq<u8>, fields: Seq<(Field, int)>)
    requires
        p.out.len() == 16,
        readable(json, fields),
    ensures
        replay(p, json, fields).out.len() == 16,
        replay(p, json, fields).seen_last_transaction == p.seen_last_transaction,
    decreases fields.len(),
{
    if fields.len() > 0 {
        assert(readable(json, fields.drop_last())) by {
            assert forall|k: int| 0 <= k < fields.drop_last().len() implies Progress::start().store(
                (#[trigger] fields.drop_last()[k]).0,
                json,
                fields.drop_last()[k].1,
            ).1 is None by {
                assert(fields.drop_last()[k] == fields[k]);
            }
        }
        lemma_replay_length(p, json, fields.drop_last());
        let (field, at) = fields.last();
        assert(fields[fields.len() - 1] == fields.last());
        laws::lemma_store_changes(replay(p, json, fields.drop_last()), field, json, at);
    }
}

proof fn lemma_readable_concat(json: Seq<u8>, a: Seq<(Field, int)>, b: Seq<(Field, int)>)
    requires
        readable(json, a),
        readable(json, b),
    ensures
        readable(json, a + b),
{
    let all = a + b;
    assert forall|k: int| 0 <= k < all.len() implies Progress::start().store(
        (#[trigger] all[k]).0,
        json,
        all[k].1,
    ).1 is None by {
        if k < a.len() {
            assert(all[k] == a[k]);
        } else {
            assert(all[k] == b[k - a.len()]);
        }
    }
}

/// Reading an object is reading its fields.
proof fn lemma_members_replay(json: Seq<u8>, i: int, section: Section, p: Progress)
    requires
        0 <= i <= json.len(),
        p.out.len() == 16,
        members_read(json, i, section) is Some,
    ensures
        ({
            let (fields, end) = members_read(json, i, section).unwrap();
            &&& readable(json, fields)
            &&& single_pass::members(json, i, section, p).0 == replay(p, json, fields)
            &&& single_pass::members(json, i, section, p).1 == Ok::<int, ParseError>(end)
        }),
    decreases json.len() - i,
{
    single_pass::lemma_step_at(json, i);
    if let Step::Member { from, to, value } = single_pass::step_at(json, i) {
        let field = single_pass::field_named(section, json.subrange(from + 1, to - 1));
        scan::lemma_value_end(json, value);
        let end = scan::value_end(json, value)->Ok_0;
        single_pass::lemma_after_value(json, end);
        let next = single_pass::after_value(json, end);
        let (rest, close) = members_read(json, next, section).unwrap();
        match field {
            Some(f) => {
                laws::lemma_store_changes(p, f, json, value);
                let q = p.store(f, json, value).0;
                lemma_members_replay(json, next, section, q);
                let one = seq![(f, value)];
                lemma_replay_one(p, json, f, value);
                lemma_replay_concat(p, json, one, rest);
                lemma_readable_concat(json, one, rest);
            },
            None => {
                lemma_members_replay(json, next, section, p);
                assert(Seq::<(Field, int)>::empty() + rest =~= rest);
            },
        }
    }
}

/// The progress with the last transaction noted, where it is there.
spec fn noted(p: Progress, last: bool) -> Progress {
    Progress { seen_last_transaction: p.seen_last_transaction || last, ..p }
}

/// Noting the last transaction does not change what fields do.
proof fn lemma_noted_replay(p: Progress, json: Seq<u8>, fields: Seq<(Field, int)>, last: bool)
    requires
        p.out.len() == 16,
        readable(json, fields),
    ensures
        replay(noted(p, last), json, fields) == noted(replay(p, json, fields), last),
    decreases fields.len(),
{
    if fields.len() > 0 {
        let front = fields.drop_last();
        assert(readable(json, front)) by {
            assert forall|k: int| 0 <= k < front.len() implies Progress::start().store(
                (#[trigger] front[k]).0,
                json,
                front[k].1,
            ).1 is None by {
                assert(front[k] == fields[k]);
            }
        }
        lemma_noted_replay(p, json, front, last);
        lemma_replay_length(p, json, front);
        let (field, at) = fields.last();
        assert(fields[fields.len() - 1] == fields.last());
        let a = replay(p, json, front);
        let b = noted(a, last);
        laws::lemma_store_changes(a, field, json, at);
        laws::lemma_store_changes(b, field, json, at);
        let x = b.store(field, json, at).0;
        let y = noted(a.store(field, json, at).0, last);
        assert(x.out =~= y.out);
        assert(x == y);
    }
}

/// Reading a member of the payload is reading its fields.
proof fn lemma_section_replay(json: Seq<u8>, key: Seq<u8>, value: int, p: Progress)
    requires
        0 <= value <= json.len(),
        p.out.len() == 16,
        section_read(json, key, value) is Some,
    ensures
        ({
            let (fields, last, end) = section_read(json, key, value).unwrap();
            &&& readable(json, fields)
            &&& single_pass::section_value(json, key, value, p).0 == noted(
                replay(p, json, fields),
                last,
            )
            &&& single_pass::section_value(json, key, value, p).1 == Ok::<int, ParseError>(end)
        }),
{
    let (fields, last, end) = section_read(json, key, value).unwrap();
    if let Some(section) = single_pass::section_named(key) {
        if section == Section::LastTransaction {
            let begun = noted(p, true);
            if !scan::byte_at(json, value, 'n' as u8) {
                lemma_members_replay(json, value + 1, section, begun);
                lemma_noted_replay(p, json, fields, true);
            }
        } else {
            lemma_members_replay(json, value + 1, section, p);
        }
    }
}

/// Reading the payload is reading its fields.
proof fn lemma_sections_replay(json: Seq<u8>, i: int, p: Progress)
    requires
        0 <= i <= json.len(),
        p.out.len() == 16,
        sections_read(json, i) is Some,
    ensures
        ({
            let (fields, last) = sections_read(json, i).unwrap();
            &&& readable(json, fields)
            &&& single_pass::sections(json, i, p) == (
                noted(replay(p, json, fields), last),
                None::<ParseError>,
            )
        }),
    decreases json.len() - i,
{
    single_pass::lemma_step_at(json, i);
    if let Step::Member { from, to, value } = single_pass::step_at(json, i) {
        let key = json.subrange(from + 1, to - 1);
        lemma_section_read(json, key, value);
        lemma_section_replay(json, key, value, p);
        let (fields, last, end) = section_read(json, key, value).unwrap();
        single_pass::lemma_after_value(json, end);
        let next = single_pass::after_value(json, end);
        lemma_replay_length(p, json, fields);
        let q = noted(replay(p, json, fields), last);
        lemma_sections_replay(json, next, q);
        let (rest, also) = sections_read(json, next).unwrap();
        lemma_readable_concat(json, fields, rest);
        lemma_replay_concat(p, json, fields, rest);
        lemma_noted_replay(replay(p, json, fields), json, rest, last);
    }
}

/// Where the value of a field stands that comes last.
pub open spec fn last_place(fields: Seq<(Field, int)>, field: Field) -> Option<int>
    decreases fields.len(),
{
    if fields.len() == 0 {
        None
    } else if fields.last().0 == field {
        Some(fields.last().1)
    } else {
        last_place(fields.drop_last(), field)
    }
}

/// What the value of a field makes of an empty vector, if the field is there. Of a field that is
/// there more than once, the last value counts.
pub open spec fn value_of(json: Seq<u8>, field: Field) -> Option<Progress> {
    match last_place(fields_read(json).unwrap().0, field) {
        Some(at) => Some(Progress::start().store(field, json, at).0),
        None => None,
    }
}

/// The field that gives a dimension.
spec fn giver(slot: int) -> Option<Field> {
    if slot == 0 {
        Some(Field::Amount)
    } else if slot == 1 {
        Some(Field::Installments)
    } else if slot == 3 || slot == 4 {
        Some(Field::RequestedAt)
    } else if slot == 7 {
        Some(Field::KmFromHome)
    } else if slot == 8 {
        Some(Field::TxCount)
    } else if slot == 9 {
        Some(Field::IsOnline)
    } else if slot == 10 {
        Some(Field::CardPresent)
    } else if slot == 12 {
        Some(Field::Mcc)
    } else if slot == 13 {
        Some(Field::MerchantAverage)
    } else {
        None
    }
}

/// What the value of the last of the fields that is `field` makes of an empty vector.
spec fn change(json: Seq<u8>, fields: Seq<(Field, int)>, field: Field) -> Progress {
    match last_place(fields, field) {
        Some(at) => Progress::start().store(field, json, at).0,
        None => Progress::start(),
    }
}

/// What was read is what the last value of each field gives.
proof fn lemma_replay_values(json: Seq<u8>, fields: Seq<(Field, int)>)
    requires
        readable(json, fields),
    ensures
        ({
            let q = replay(Progress::start(), json, fields);
            &&& q.out.len() == 16
            &&& forall|i: int|
                0 <= i < 16 ==> #[trigger] q.out[i] == (match giver(i) {
                    Some(f) => change(json, fields, f).out[i],
                    None => 0,
                })
            &&& q.amount == change(json, fields, Field::Amount).amount
            &&& q.average == change(json, fields, Field::CustomerAverage).average
            &&& q.merchant == change(json, fields, Field::MerchantId).merchant
            &&& q.known == change(json, fields, Field::KnownMerchants).known
            &&& q.requested_minute == change(json, fields, Field::RequestedAt).requested_minute
            &&& q.last_minute == change(json, fields, Field::Timestamp).last_minute
            &&& q.last_km == change(json, fields, Field::KmFromCurrent).last_km
            &&& !q.seen_last_transaction
            &&& forall|f: Field|
                #[trigger] q.seen.contains(f) <==> last_place(fields, f) is Some
        }),
    decreases fields.len(),
{
    if fields.len() > 0 {
        let front = fields.drop_last();
        assert(readable(json, front)) by {
            assert forall|k: int| 0 <= k < front.len() implies Progress::start().store(
                (#[trigger] front[k]).0,
                json,
                front[k].1,
            ).1 is None by {
                assert(front[k] == fields[k]);
            }
        }
        lemma_replay_values(json, front);
        let (field, at) = fields.last();
        assert(fields[fields.len() - 1] == fields.last());
        let p = replay(Progress::start(), json, front);
        laws::lemma_store_changes(p, field, json, at);
        let q = p.store(field, json, at).0;
        assert forall|i: int| 0 <= i < 16 implies #[trigger] q.out[i] == (match giver(i) {
            Some(f) => change(json, fields, f).out[i],
            None => 0,
        }) by {
            assert(laws::gives(field, i) <==> giver(i) == Some(field));
        }
    }
}

proof fn lemma_last_place(fields: Seq<(Field, int)>, field: Field)
    ensures
        last_place(fields, field) matches Some(at) ==> exists|k: int|
            0 <= k < fields.len() && #[trigger] fields[k] == (field, at),
    decreases fields.len(),
{
    if fields.len() > 0 {
        if fields.last().0 == field {
            assert(fields[fields.len() - 1] == (field, fields.last().1));
        } else {
            let front = fields.drop_last();
            lemma_last_place(front, field);
            if let Some(at) = last_place(front, field) {
                let k = choose|k: int| 0 <= k < front.len() && #[trigger] front[k] == (field, at);
                assert(fields[k] == (field, at));
            }
        }
    }
}

/// The field is there and has a value.
pub open spec fn has_value(json: Seq<u8>, field: Field) -> bool {
    match last_place(fields_read(json).unwrap().0, field) {
        Some(at) => Progress::start().store(field, json, at).1 is None,
        None => false,
    }
}

/// What one pass has read in the end, field by field.
pub proof fn lemma_one_pass_values(json: Seq<u8>) -> (q: Progress)
    requires
        fields_read(json) is Some,
        single_pass::single_pass_outcome(json).1 is Ok,
    ensures
        single_pass::single_pass_outcome(json) == q.conclusion(),
        q.complete(),
        q.out.len() == 16,
        forall|f: Field| #[trigger] q.seen.contains(f) <==> has_value(json, f),
        forall|f: Field| has_value(json, f) <==> #[trigger] value_of(json, f) is Some,
        q.out[0] == value_of(json, Field::Amount).unwrap().out[0],
        q.out[1] == value_of(json, Field::Installments).unwrap().out[1],
        q.out[3] == value_of(json, Field::RequestedAt).unwrap().out[3],
        q.out[4] == value_of(json, Field::RequestedAt).unwrap().out[4],
        q.out[7] == value_of(json, Field::KmFromHome).unwrap().out[7],
        q.out[8] == value_of(json, Field::TxCount).unwrap().out[8],
        q.out[9] == value_of(json, Field::IsOnline).unwrap().out[9],
        q.out[10] == value_of(json, Field::CardPresent).unwrap().out[10],
        q.out[12] == value_of(json, Field::Mcc).unwrap().out[12],
        q.out[13] == value_of(json, Field::MerchantAverage).unwrap().out[13],
        q.amount == value_of(json, Field::Amount).unwrap().amount,
        q.average == value_of(json, Field::CustomerAverage).unwrap().average,
        q.merchant == value_of(json, Field::MerchantId).unwrap().merchant,
        q.known == value_of(json, Field::KnownMerchants).unwrap().known,
        q.requested_minute == value_of(json, Field::RequestedAt).unwrap().requested_minute,
        q.last_minute == (match value_of(json, Field::Timestamp) {
            Some(p) => p.last_minute,
            None => None,
        }),
        q.last_km == (match value_of(json, Field::KmFromCurrent) {
            Some(p) => p.last_km,
            None => None,
        }),
{
    let (fields, last) = fields_read(json).unwrap();
    scan::lemma_ws_end(json, 0);
    lemma_sections_replay(json, scan::ws_end(json, 0) + 1, Progress::start());
    lemma_replay_values(json, fields);
    let p = replay(Progress::start(), json, fields);
    let q = noted(p, last);
    assert forall|f: Field| #[trigger] q.seen.contains(f) <==> has_value(json, f) by {
        lemma_last_place(fields, f);
        assert(p.seen.contains(f) <==> last_place(fields, f) is Some);
    }
    assert forall|f: Field| has_value(json, f) <==> #[trigger] value_of(json, f) is Some by {
        assert(q.seen.contains(f) <==> has_value(json, f));
        assert(p.seen.contains(f) <==> last_place(fields, f) is Some);
    }
    assert(q.complete());
    assert(has_value(json, Field::Amount) && has_value(json, Field::Installments) && has_value(
        json,
        Field::RequestedAt,
    ) && has_value(json, Field::CustomerAverage) && has_value(json, Field::TxCount) && has_value(
        json,
        Field::KnownMerchants,
    ) && has_value(json, Field::MerchantId) && has_value(json, Field::Mcc) && has_value(
        json,
        Field::MerchantAverage,
    ) && has_value(json, Field::IsOnline) && has_value(json, Field::CardPresent) && has_value(
        json,
        Field::KmFromHome,
    ));
    assert(p.out[0] == change(json, fields, Field::Amount).out[0]);
    assert(p.out[1] == change(json, fields, Field::Installments).out[1]);
    assert(p.out[3] == change(json, fields, Field::RequestedAt).out[3]);
    assert(p.out[4] == change(json, fields, Field::RequestedAt).out[4]);
    assert(p.out[7] == change(json, fields, Field::KmFromHome).out[7]);
    assert(p.out[8] == change(json, fields, Field::TxCount).out[8]);
    assert(p.out[9] == change(json, fields, Field::IsOnline).out[9]);
    assert(p.out[10] == change(json, fields, Field::CardPresent).out[10]);
    assert(p.out[12] == change(json, fields, Field::Mcc).out[12]);
    assert(p.out[13] == change(json, fields, Field::MerchantAverage).out[13]);
    q
}

/// One pass takes a payload that has all fields, and both or none of the last transaction's.
pub proof fn lemma_one_pass_takes(json: Seq<u8>)
    requires
        fields_read(json) is Some,
        fields_read(json).unwrap().1,
        value_of(json, Field::Amount) is Some,
        value_of(json, Field::Installments) is Some,
        value_of(json, Field::RequestedAt) is Some,
        value_of(json, Field::CustomerAverage) is Some,
        value_of(json, Field::TxCount) is Some,
        value_of(json, Field::KnownMerchants) is Some,
        value_of(json, Field::MerchantId) is Some,
        value_of(json, Field::Mcc) is Some,
        value_of(json, Field::MerchantAverage) is Some,
        value_of(json, Field::IsOnline) is Some,
        value_of(json, Field::CardPresent) is Some,
        value_of(json, Field::KmFromHome) is Some,
        value_of(json, Field::Timestamp) is Some <==> value_of(json, Field::KmFromCurrent) is Some,
    ensures
        single_pass::single_pass_outcome(json).1 is Ok,
{
    let (fields, last) = fields_read(json).unwrap();
    scan::lemma_ws_end(json, 0);
    lemma_sections_replay(json, scan::ws_end(json, 0) + 1, Progress::start());
    lemma_replay_values(json, fields);
    let p = replay(Progress::start(), json, fields);
    let q = noted(p, last);
    lemma_last_place(fields, Field::Timestamp);
    lemma_last_place(fields, Field::KmFromCurrent);
    assert(p.seen.contains(Field::Amount) && p.seen.contains(Field::Installments)
        && p.seen.contains(Field::RequestedAt) && p.seen.contains(Field::CustomerAverage)
        && p.seen.contains(Field::TxCount) && p.seen.contains(Field::KnownMerchants)
        && p.seen.contains(Field::MerchantId) && p.seen.contains(Field::Mcc) && p.seen.contains(
        Field::MerchantAverage,
    ) && p.seen.contains(Field::IsOnline) && p.seen.contains(Field::CardPresent)
        && p.seen.contains(Field::KmFromHome));
    assert(q.complete());
    if let Some(at) = last_place(fields, Field::Timestamp) {
        lemma_last_transaction_stored(json, at);
        let k = choose|k: int| 0 <= k < fields.len() && #[trigger] fields[k] == (Field::Timestamp, at);
        assert(Progress::start().store(fields[k].0, json, fields[k].1).1 is None);
    }
    if let Some(at) = last_place(fields, Field::KmFromCurrent) {
        lemma_last_transaction_stored(json, at);
        let k = choose|k: int|
            0 <= k < fields.len() && #[trigger] fields[k] == (Field::KmFromCurrent, at);
        assert(Progress::start().store(fields[k].0, json, fields[k].1).1 is None);
    }
    assert(q.last_minute is Some <==> q.last_km is Some);
}

proof fn lemma_last_transaction_stored(json: Seq<u8>, at: int)
    ensures
        Progress::start().store(Field::Timestamp, json, at).1 is None
            ==> Progress::start().store(Field::Timestamp, json, at).0.last_minute is Some,
        Progress::start().store(Field::KmFromCurrent, json, at).1 is None
            ==> Progress::start().store(Field::KmFromCurrent, json, at).0.last_km is Some,
{
    reveal(Progress::store);
}

/// The vector depends on the values of the fields alone: two payloads whose fields have the same
/// values get the same vector, whatever the order of their members, the members between them that
/// are not understood, and the white space.
pub proof fn law_vector_depends_on_field_values_alone(a: Seq<u8>, b: Seq<u8>)
    requires
        fields_read(a) is Some,
        fields_read(b) is Some,
        forall|field: Field| #[trigger] value_of(a, field) == value_of(b, field),
        fields_read(a).unwrap().1 == fields_read(b).unwrap().1,
    ensures
        single_pass::single_pass_outcome(a) == single_pass::single_pass_outcome(b),
{
    let (fields_a, last) = fields_read(a).unwrap();
    let (fields_b, _) = fields_read(b).unwrap();
    let start = Progress::start();
    scan::lemma_ws_end(a, 0);
    scan::lemma_ws_end(b, 0);
    lemma_sections_replay(a, scan::ws_end(a, 0) + 1, start);
    lemma_sections_replay(b, scan::ws_end(b, 0) + 1, start);
    lemma_replay_values(a, fields_a);
    lemma_replay_values(b, fields_b);
    let p = replay(start, a, fields_a);
    let q = replay(start, b, fields_b);
    assert forall|field: Field|
        change(a, fields_a, field) == #[trigger] change(b, fields_b, field) && (last_place(
            fields_a,
            field,
        ) is Some <==> last_place(fields_b, field) is Some) by {
        assert(value_of(a, field) == value_of(b, field));
    }
    assert forall|i: int| 0 <= i < 16 implies p.out[i] == q.out[i] by {
        if let Some(f) = giver(i) {
            assert(change(a, fields_a, f) == change(b, fields_b, f));
        }
    }
    assert(p.out =~= q.out);
    assert forall|field: Field| p.seen.contains(field) <==> q.seen.contains(field) by {
        assert(change(a, fields_a, field) == change(b, fields_b, field));
    }
    assert(p.seen =~= q.seen);
    assert(change(a, fields_a, Field::Amount) == change(b, fields_b, Field::Amount));
    assert(change(a, fields_a, Field::CustomerAverage) == change(
        b,
        fields_b,
        Field::CustomerAverage,
    ));
    assert(change(a, fields_a, Field::MerchantId) == change(b, fields_b, Field::MerchantId));
    assert(change(a, fields_a, Field::KnownMerchants) == change(
        b,
        fields_b,
        Field::KnownMerchants,
    ));
    assert(change(a, fields_a, Field::RequestedAt) == change(b, fields_b, Field::RequestedAt));
    assert(change(a, fields_a, Field::Timestamp) == change(b, fields_b, Field::Timestamp));
    assert(change(a, fields_a, Field::KmFromCurrent) == change(b, fields_b, Field::KmFromCurrent));
    assert(p == q);
}

/// The same of the whole reading of a payload, where one pass reads it.
pub proof fn law_query_depends_on_field_values_alone(a: Seq<u8>, b: Seq<u8>)
    requires
        fields_read(a) is Some,
        fields_read(b) is Some,
        forall|field: Field| #[trigger] value_of(a, field) == value_of(b, field),
        fields_read(a).unwrap().1 == fields_read(b).unwrap().1,
        single_pass::single_pass_outcome(a).1 is Ok,
    ensures
        vector::query_outcome(a) == vector::query_outcome(b),
{
    law_vector_depends_on_field_values_alone(a, b);
    if compact::compact_outcome(a).error is None {
        agreement::law_both_forms_give_the_same_vector(a);
    }
    if compact::compact_outcome(b).error is None {
        agreement::law_both_forms_give_the_same_vector(b);
    }
    reveal(vector::query_outcome);
}

} // verus!
