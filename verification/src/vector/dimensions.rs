//! What the dimensions of a vector say.

use vstd::prelude::*;

use crate::bytes;
use crate::vector::binary64::Binary64;
use crate::vector::binary64::INFINITE;
use crate::vector;
use crate::vector::agreement;
use crate::vector::calendar;
use crate::vector::compact;
use crate::vector::compact::MAX_KNOWN;
use crate::vector::exact::one;
use crate::vector::helpers;
use crate::vector::helpers::ParsedDateTime;
use crate::vector::measures;
use crate::vector::measures::is_finite;
use crate::vector::measures::measured;
use crate::vector::measures::size;
use crate::vector::numeral;
use crate::vector::order;
use crate::vector::reorder;
use crate::vector::serde_fallback;
use crate::vector::serde_fallback::PayloadView;
use crate::vector::single_pass;
use crate::vector::single_pass::Field;
use crate::vector::single_pass::Progress;
use crate::PACKED_DIMS;
use crate::SCALE;

verus! {

/// `r` is the number over the divisor, on the scale; where the number is infinite, it is an end of it.
#[verifier::opaque]
pub open spec fn is_part(r: i16, value: Binary64, divisor: int) -> bool {
    if is_finite(value) {
        measured(r as int, value.negative, size(value) as int, divisor * one())
    } else {
        value.magnitude == INFINITE ==> r == (if value.negative {
            -SCALE
        } else {
            SCALE as int
        })
    }
}

/// `r` is the integer over the divisor, on the scale.
#[verifier::opaque]
pub open spec fn is_share(r: i16, value: int, divisor: int) -> bool {
    measured(
        r as int,
        value < 0,
        if value < 0 {
            -value
        } else {
            value
        },
        divisor,
    )
}

/// `r` is the amount over ten times the average, on the scale, and its end where there is no average.
#[verifier::opaque]
pub open spec fn is_ratio(r: i16, amount: Binary64, average: Binary64) -> bool {
    is_finite(amount) && is_finite(average) ==> if average.negative || size(average) == 0 {
        r == SCALE
    } else {
        measured(r as int, amount.negative, size(amount) as int, (10 * size(average)) as int)
    }
}

/// `r` says whether something holds.
pub open spec fn is_flag(r: i16, holds: bool) -> bool {
    r == if holds {
        SCALE as int
    } else {
        0
    }
}

/// `r` is the risk of the merchant category, on the scale.
#[verifier::opaque]
pub open spec fn is_risk(r: i16, code: Seq<u8>) -> bool {
    &&& code == seq![53u8, 52, 49, 49] ==> r == 1500
    &&& code == seq![53u8, 56, 49, 50] ==> r == 3000
    &&& code == seq![53u8, 57, 49, 50] ==> r == 2000
    &&& code == seq![53u8, 57, 52, 52] ==> r == 4500
    &&& code == seq![55u8, 56, 48, 49] ==> r == 8000
    &&& code == seq![55u8, 56, 48, 50] ==> r == 7500
    &&& code == seq![55u8, 57, 57, 53] ==> r == 8500
    &&& code == seq![52u8, 53, 49, 49] ==> r == 3500
    &&& code == seq![53u8, 51, 49, 49] ==> r == 2500
    &&& r != 1500 && r != 3000 && r != 2000 && r != 4500 && r != 8000 && r != 7500 && r != 8500 && r
        != 3500 && r != 2500 ==> r == 5000
    &&& r != 5000 ==> code.len() == 4 && forall|k: int|
        0 <= k < 4 ==> 48 <= (#[trigger] code[k]) <= 57
}

pub proof fn lemma_part(value: Binary64, divisor: nat)
    requires
        0 < divisor <= 1_000_000,
    ensures
        is_part(helpers::scaled(value, divisor), value, divisor as int),
{
    reveal(is_part);
    if is_finite(value) {
        measures::law_scaled_is_the_number_over_the_divisor(value, divisor);
        assert((divisor * one()) as int == divisor as int * one());
    } else if value.magnitude == INFINITE {
        measures::law_scaled_infinite_is_cut(value, divisor);
    }
}

pub proof fn lemma_share(value: int, divisor: nat)
    requires
        -0x20_0000_0000_0000 < value < 0x20_0000_0000_0000,
        0 < divisor <= 1_000_000,
    ensures
        is_share(helpers::scaled_integer(value, divisor), value, divisor as int),
{
    reveal(is_share);
    measures::law_scaled_integers(value, divisor);
}

pub proof fn lemma_ratio(amount: Binary64, average: Binary64)
    ensures
        is_ratio(helpers::amount_ratio(amount, average), amount, average),
{
    reveal(is_ratio);
    if is_finite(amount) && is_finite(average) {
        measures::law_amount_is_measured_against_the_average(amount, average);
    }
}

/// A category is rated by the percentage that it has, and any text that is none of the rated ones by
/// half.
pub proof fn law_categories_are_rated(code: Seq<u8>)
    ensures
        is_risk(helpers::risk_of(code), code),
{
    reveal(is_risk);
    let n = helpers::mcc_of(code);
    let percent = helpers::risk_percent(n);
    measures::law_fractions_on_the_scale(percent, 100);
    let r = helpers::risk_of(code) as int;
    assert(r == 100 * percent) by (nonlinear_arith)
        requires
            1_000_000 * (r * 100 - 10_000 * percent) <= 500_001 * 100,
            -500_001 * 100 <= 1_000_000 * (r * 100 - 10_000 * percent),
    ;
    if code.len() == 4 && bytes::all_digits(code) {
        reveal_with_fuel(bytes::digits_value, 5);
        assert forall|k: int| 0 <= k < 4 implies 48 <= (#[trigger] code[k]) <= 57 by {
            assert(bytes::is_digit(code[k]));
        }
        assert(n == (code[0] - 48) * 1000 + (code[1] - 48) * 100 + (code[2] - 48) * 10 + (code[3]
            - 48));
    } else {
        assert(n == 0);
    }
    assert forall|k: int| 0 <= k < code.len() && code.len() == 4 && (forall|j: int|
        0 <= j < 4 ==> 48 <= (#[trigger] code[j]) <= 57) implies bytes::is_digit(
        #[trigger] code[k],
    ) by {}
}

proof fn lemma_days_are_near(year: int, month: int, day: int)
    requires
        0 <= year <= 9999,
        0 <= month <= 99,
        0 <= day <= 99,
    ensures
        -1_000_000 <= helpers::civil_days(year, month, day) <= 10_000_000,
{
}

/// Times that can be read are not far away.
pub proof fn lemma_times_are_near(iso: Seq<u8>)
    requires
        helpers::datetime_of(iso) is Ok,
    ensures
        -0x1_0000_0000_0000 <= helpers::datetime_of(iso)->Ok_0.epoch_minute <= 0x1_0000_0000_0000,
{
    calendar::law_times_are_read_where_they_stand(iso);
    lemma_days_are_near(
        calendar::year_in(iso),
        calendar::pair_in(iso, 5),
        calendar::pair_in(iso, 8),
    );
}

/// One of the first known merchants has the name.
pub open spec fn is_known(known: Seq<Seq<u8>>, name: Seq<u8>) -> bool {
    exists|k: int| 0 <= k < known.len() && k < MAX_KNOWN && #[trigger] known[k] == name
}

/// One of the first known merchants has a name with the same hash.
pub open spec fn may_be_known(known: Seq<Seq<u8>>, name: Seq<u8>) -> bool {
    exists|k: int|
        0 <= k < known.len() && k < MAX_KNOWN && helpers::hash_of(#[trigger] known[k])
            == helpers::hash_of(name)
}

/// The vector says what the payload says, with these two times.
pub open spec fn says_at(
    v: Seq<i16>,
    payload: PayloadView,
    requested: ParsedDateTime,
    last: Option<ParsedDateTime>,
) -> bool {
    &&& v.len() == PACKED_DIMS
    &&& is_part(v[0], payload.amount, 10_000)
    &&& is_share(v[1], payload.installments, 12)
    &&& is_ratio(v[2], payload.amount, payload.customer_average)
    &&& is_share(v[3], requested.hour as int, 23)
    &&& is_share(v[4], requested.day_of_week as int, 6)
    &&& payload.last_transaction is None ==> v[5] == -SCALE && v[6] == -SCALE
    &&& payload.last_transaction matches Some((_, km)) ==> {
        &&& is_share(v[5], requested.epoch_minute - last.unwrap().epoch_minute, 1440)
        &&& is_part(v[6], km, 1000)
    }
    &&& is_part(v[7], payload.km_from_home, 1000)
    &&& is_share(v[8], payload.tx_count, 20)
    &&& is_flag(v[9], payload.is_online)
    &&& is_flag(v[10], payload.card_present)
    &&& v[11] == 0 || v[11] == SCALE
    &&& is_known(payload.known_merchants, payload.merchant_id) ==> v[11] == 0
    &&& v[11] == 0 ==> may_be_known(payload.known_merchants, payload.merchant_id)
    &&& is_risk(v[12], payload.mcc)
    &&& is_part(v[13], payload.merchant_average, 10_000)
}

/// The time of the last transaction.
pub open spec fn last_time(payload: PayloadView) -> Option<ParsedDateTime> {
    match payload.last_transaction {
        Some((timestamp, _)) => match helpers::datetime_of(timestamp) {
            Ok(time) => Some(time),
            Err(_) => None,
        },
        None => None,
    }
}

/// The vector says what the payload says.
pub open spec fn says(v: Seq<i16>, payload: PayloadView) -> bool {
    says_at(v, payload, helpers::datetime_of(payload.requested_at)->Ok_0, last_time(payload))
}

/// The vector with each dimension set in turn.
#[verifier::opaque]
spec fn set_in_turn(out: Seq<i16>, to: Seq<i16>) -> Seq<i16> {
    out.update(0, to[0]).update(1, to[1]).update(3, to[3]).update(4, to[4]).update(7, to[7]).update(
        8,
        to[8],
    ).update(9, to[9]).update(10, to[10]).update(12, to[12]).update(13, to[13]).update(
        5,
        to[5],
    ).update(6, to[6]).update(2, to[2]).update(11, to[11])
}

proof fn lemma_set_in_turn(out: Seq<i16>, to: Seq<i16>)
    requires
        out.len() == PACKED_DIMS,
        to.len() == 14,
    ensures
        set_in_turn(out, to).len() == PACKED_DIMS,
        forall|d: int| 0 <= d < 14 ==> #[trigger] set_in_turn(out, to)[d] == to[d],
        set_in_turn(out, to)[14] == out[14],
        set_in_turn(out, to)[15] == out[15],
{
    reveal(set_in_turn);
    let v = set_in_turn(out, to);
    assert forall|d: int| 0 <= d < 14 implies #[trigger] v[d] == to[d] by {
        assert(d == 0 || d == 1 || d == 2 || d == 3 || d == 4 || d == 5 || d == 6 || d == 7 || d == 8
            || d == 9 || d == 10 || d == 11 || d == 12 || d == 13);
    }
}

/// The dimensions that are filled, one by one.
#[verifier::rlimit(40)]
#[verifier::spinoff_prover]
proof fn lemma_filled(
    payload: PayloadView,
    out: Seq<i16>,
    requested: ParsedDateTime,
    last: Option<ParsedDateTime>,
    with_last: Seq<i16>,
)
    requires
        out.len() == PACKED_DIMS,
        -0x8000_0000 <= payload.installments <= 0x7fff_ffff,
        -0x8000_0000 <= payload.tx_count <= 0x7fff_ffff,
        -0x1_0000_0000_0000 <= requested.epoch_minute <= 0x1_0000_0000_0000,
        payload.last_transaction is Some <==> last is Some,
        last is Some ==> -0x1_0000_0000_0000 <= last.unwrap().epoch_minute
            <= 0x1_0000_0000_0000,
        ({
            let filled = serde_fallback::single_dimensions(out, payload, requested);
            with_last == match payload.last_transaction {
                Some((_, km)) => filled.update(
                    5,
                    helpers::scaled_integer(
                        requested.epoch_minute - last.unwrap().epoch_minute,
                        1440,
                    ),
                ).update(6, helpers::scaled(km, 1000)),
                None => filled.update(5, (-SCALE) as i16).update(6, (-SCALE) as i16),
            }
        }),
    ensures
        ({
            let v = helpers::finished(
                with_last,
                payload.amount,
                payload.customer_average,
                helpers::hash_of(payload.merchant_id),
                serde_fallback::known_hashes(payload.known_merchants),
            );
            &&& says_at(v, payload, requested, last)
            &&& v[14] == out[14]
            &&& v[15] == out[15]
        }),
{
    let (x5, x6) = match payload.last_transaction {
        Some((_, km)) => (
            helpers::scaled_integer(requested.epoch_minute - last.unwrap().epoch_minute, 1440),
            helpers::scaled(km, 1000),
        ),
        None => ((-SCALE) as i16, (-SCALE) as i16),
    };
    let known = serde_fallback::known_hashes(payload.known_merchants);
    let merchant = helpers::hash_of(payload.merchant_id);
    let to = seq![
        helpers::scaled(payload.amount, 10_000),
        helpers::scaled_integer(payload.installments, 12),
        helpers::amount_ratio(payload.amount, payload.customer_average),
        helpers::scaled_integer(requested.hour as int, 23),
        helpers::scaled_integer(requested.day_of_week as int, 6),
        x5,
        x6,
        helpers::scaled(payload.km_from_home, 1000),
        helpers::scaled_integer(payload.tx_count, 20),
        helpers::flag(payload.is_online),
        helpers::flag(payload.card_present),
        helpers::flag(!known.contains(merchant)),
        helpers::risk_of(payload.mcc),
        helpers::scaled(payload.merchant_average, 10_000),
    ];
    let v = helpers::finished(
        with_last,
        payload.amount,
        payload.customer_average,
        merchant,
        known,
    );
    assert(v == set_in_turn(out, to)) by {
        reveal(set_in_turn);
    }
    lemma_set_in_turn(out, to);
    assert(v[0] == to[0] && v[1] == to[1] && v[2] == to[2] && v[3] == to[3] && v[4] == to[4]);
    assert(v[5] == to[5] && v[6] == to[6] && v[7] == to[7] && v[8] == to[8] && v[9] == to[9]);
    assert(v[10] == to[10] && v[11] == to[11] && v[12] == to[12] && v[13] == to[13]);
    lemma_part(payload.amount, 10_000);
    lemma_part(payload.merchant_average, 10_000);
    lemma_part(payload.km_from_home, 1000);
    lemma_share(payload.installments, 12);
    lemma_share(payload.tx_count, 20);
    lemma_share(requested.hour as int, 23);
    lemma_share(requested.day_of_week as int, 6);
    law_categories_are_rated(payload.mcc);
    if let Some((_, km)) = payload.last_transaction {
        lemma_part(km, 1000);
        lemma_share(requested.epoch_minute - last.unwrap().epoch_minute, 1440);
    }
    lemma_ratio(payload.amount, payload.customer_average);
    lemma_known(payload.known_merchants, payload.merchant_id);
}

/// A payload gets a vector if and only if its times can be read, and every dimension of the vector is
/// what the payload says there, on the scale: amounts in units of ten thousand, installments of twelve,
/// the amount against ten times the customer's average, the hour of twenty-three and the day of the
/// week of six, the minutes and kilometres since the last transaction of a day and a thousand, the
/// kilometres from home of a thousand, transactions of twenty, the two flags, whether the merchant is
/// unknown, the risk of its category and its average. What stood behind the last dimension stays.
pub proof fn law_vectors_say_what_payloads_say(payload: PayloadView, out: Seq<i16>)
    requires
        out.len() == PACKED_DIMS,
        -0x8000_0000 <= payload.installments <= 0x7fff_ffff,
        -0x8000_0000 <= payload.tx_count <= 0x7fff_ffff,
    ensures
        serde_fallback::payload_outcome(payload, out).1 is Ok <==> helpers::datetime_of(
            payload.requested_at,
        ) is Ok && (payload.last_transaction is Some ==> last_time(payload) is Some),
        serde_fallback::payload_outcome(payload, out).1 is Ok ==> {
            let v = serde_fallback::payload_outcome(payload, out).0;
            &&& says(v, payload)
            &&& v[14] == out[14]
            &&& v[15] == out[15]
        },
{
    if serde_fallback::payload_outcome(payload, out).1 is Ok {
        let requested = helpers::datetime_of(payload.requested_at)->Ok_0;
        let filled = serde_fallback::single_dimensions(out, payload, requested);
        lemma_times_are_near(payload.requested_at);
        match payload.last_transaction {
            Some((timestamp, km)) => {
                lemma_times_are_near(timestamp);
                let time = helpers::datetime_of(timestamp)->Ok_0;
                lemma_filled(
                    payload,
                    out,
                    requested,
                    Some(time),
                    filled.update(
                        5,
                        helpers::scaled_integer(requested.epoch_minute - time.epoch_minute, 1440),
                    ).update(6, helpers::scaled(km, 1000)),
                );
            },
            None => {
                lemma_filled(
                    payload,
                    out,
                    requested,
                    None,
                    filled.update(5, (-SCALE) as i16).update(6, (-SCALE) as i16),
                );
            },
        }
    }
}

proof fn lemma_known(known: Seq<Seq<u8>>, name: Seq<u8>)
    ensures
        is_known(known, name) ==> serde_fallback::known_hashes(known).contains(
            helpers::hash_of(name),
        ),
        serde_fallback::known_hashes(known).contains(helpers::hash_of(name)) ==> may_be_known(
            known,
            name,
        ),
{
    let hashes = serde_fallback::known_hashes(known);
    if is_known(known, name) {
        let k = choose|k: int| 0 <= k < known.len() && k < MAX_KNOWN && #[trigger] known[k] == name;
        assert(hashes[k] == helpers::hash_of(name));
    }
    if hashes.contains(helpers::hash_of(name)) {
        let k = choose|k: int| 0 <= k < hashes.len() && hashes[k] == helpers::hash_of(name);
        assert(helpers::hash_of(known[k]) == helpers::hash_of(name));
    }
}

/// Where the value of a field stands that one pass takes.
pub open spec fn place_of(json: Seq<u8>, field: Field) -> int {
    order::last_place(order::fields_read(json).unwrap().0, field).unwrap()
}

/// The number at the field.
pub open spec fn number_of(json: Seq<u8>, field: Field) -> Binary64 {
    numeral::double_at(json, place_of(json, field))->Ok_0
}

/// The integer at the field.
pub open spec fn integer_of(json: Seq<u8>, field: Field) -> int {
    numeral::int_at(json, place_of(json, field))->Ok_0 as int
}

/// The truth value at the field.
pub open spec fn truth_of(json: Seq<u8>, field: Field) -> bool {
    numeral::bool_at(json, place_of(json, field))->Ok_0
}

/// The text at the field.
pub open spec fn text_of(json: Seq<u8>, field: Field) -> Seq<u8> {
    numeral::string_at(json, place_of(json, field))->Ok_0
}

/// The time at the field.
pub open spec fn time_of(json: Seq<u8>, field: Field) -> ParsedDateTime {
    helpers::datetime_of(text_of(json, field))->Ok_0
}

/// The hashes of the names at the list of known merchants.
pub open spec fn hashes_of(json: Seq<u8>) -> Seq<u64> {
    single_pass::known_at(json, place_of(json, Field::KnownMerchants))->Ok_0
}

/// The vector says what the fields of the payload say.
pub open spec fn says_fields(v: Seq<i16>, json: Seq<u8>) -> bool {
    let requested = time_of(json, Field::RequestedAt);
    let last = order::has_value(json, Field::Timestamp);
    &&& v.len() == PACKED_DIMS
    &&& is_part(v[0], number_of(json, Field::Amount), 10_000)
    &&& is_share(v[1], integer_of(json, Field::Installments), 12)
    &&& is_ratio(v[2], number_of(json, Field::Amount), number_of(json, Field::CustomerAverage))
    &&& is_share(v[3], requested.hour as int, 23)
    &&& is_share(v[4], requested.day_of_week as int, 6)
    &&& last == order::has_value(json, Field::KmFromCurrent)
    &&& !last ==> v[5] == -SCALE && v[6] == -SCALE
    &&& last ==> is_share(
        v[5],
        requested.epoch_minute - time_of(json, Field::Timestamp).epoch_minute,
        1440,
    )
    &&& last ==> is_part(v[6], number_of(json, Field::KmFromCurrent), 1000)
    &&& is_part(v[7], number_of(json, Field::KmFromHome), 1000)
    &&& is_share(v[8], integer_of(json, Field::TxCount), 20)
    &&& is_flag(v[9], truth_of(json, Field::IsOnline))
    &&& is_flag(v[10], truth_of(json, Field::CardPresent))
    &&& is_flag(
        v[11],
        !hashes_of(json).contains(helpers::hash_of(text_of(json, Field::MerchantId))),
    )
    &&& is_risk(v[12], text_of(json, Field::Mcc))
    &&& is_part(v[13], number_of(json, Field::MerchantAverage), 10_000)
}

/// What a field's value makes of an empty vector.
pub open spec fn makes(p: Progress, json: Seq<u8>, at: int, field: Field) -> bool {
    let number = numeral::double_at(json, at)->Ok_0;
    let integer = numeral::int_at(json, at)->Ok_0 as int;
    let truth = numeral::bool_at(json, at)->Ok_0;
    let text = numeral::string_at(json, at)->Ok_0;
    let time = helpers::datetime_of(text)->Ok_0;
    &&& field == Field::Amount ==> p.out[0] == helpers::scaled(number, 10_000) && p.amount == number
    &&& field == Field::Installments ==> p.out[1] == helpers::scaled_integer(integer, 12)
    &&& field == Field::CustomerAverage ==> p.average == number
    &&& field == Field::KmFromHome ==> p.out[7] == helpers::scaled(number, 1000)
    &&& field == Field::TxCount ==> p.out[8] == helpers::scaled_integer(integer, 20)
    &&& field == Field::MerchantAverage ==> p.out[13] == helpers::scaled(number, 10_000)
    &&& field == Field::KmFromCurrent ==> p.last_km == Some(number)
    &&& field == Field::Installments || field == Field::TxCount ==> -0x8000_0000 <= integer
        <= 0x7fff_ffff
    &&& field == Field::IsOnline ==> is_flag(p.out[9], truth)
    &&& field == Field::CardPresent ==> is_flag(p.out[10], truth)
    &&& field == Field::RequestedAt ==> {
        &&& p.out[3] == helpers::scaled_integer(time.hour as int, 23)
        &&& p.out[4] == helpers::scaled_integer(time.day_of_week as int, 6)
        &&& p.requested_minute == time.epoch_minute
    }
    &&& field == Field::Timestamp ==> p.last_minute == Some(time.epoch_minute as int)
    &&& field == Field::RequestedAt || field == Field::Timestamp ==> helpers::datetime_of(
        text,
    ) is Ok
    &&& field == Field::MerchantId ==> p.merchant == helpers::hash_of(text)
    &&& field == Field::Mcc ==> p.out[12] == helpers::risk_of(text)
    &&& field == Field::KnownMerchants ==> p.known == single_pass::known_at(json, at)->Ok_0
}

pub proof fn lemma_stored(json: Seq<u8>, at: int, field: Field)
    requires
        Progress::start().store(field, json, at).1 is None,
    ensures
        makes(Progress::start().store(field, json, at).0, json, at, field),
{
    reveal(Progress::store);
}

/// What the fields of a payload make of an empty vector.
proof fn lemma_field_values(json: Seq<u8>, field: Field)
    requires
        order::has_value(json, field),
    ensures
        makes(order::value_of(json, field).unwrap(), json, place_of(json, field), field),
{
    lemma_stored(json, place_of(json, field), field);
}

/// A payload that one pass reads gets the vector that its fields say, dimension by dimension, as a
/// payload in any other form does: of a field that is there more than once the last value counts.
#[verifier::rlimit(40)]
#[verifier::spinoff_prover]
pub proof fn law_vectors_say_what_fields_say(json: Seq<u8>)
    requires
        single_pass::single_pass_outcome(json).1 is Ok,
    ensures
        order::fields_read(json) is Some,
        says_fields(vector::query_outcome(json).0, json),
        vector::query_outcome(json).1 is Ok,
{
    reorder::lemma_taken(json);
    let q = order::lemma_one_pass_values(json);
    if compact::compact_outcome(json).error is None {
        agreement::law_both_forms_give_the_same_vector(json);
    }
    reveal(vector::query_outcome);
    assert(vector::query_outcome(json) == single_pass::single_pass_outcome(json));
    lemma_slots(q);
    lemma_numbers_said(json, q);
    lemma_times_said(json, q);
    lemma_texts_said(json, q);
    let last = order::has_value(json, Field::Timestamp);
    assert(q.seen.contains(Field::Timestamp) == last);
    assert(q.seen.contains(Field::KmFromCurrent) == order::has_value(json, Field::KmFromCurrent));
    if order::has_value(json, Field::Timestamp) {
        lemma_field_values(json, Field::Timestamp);
    } else {
        assert(order::value_of(json, Field::Timestamp) is None);
    }
    if order::has_value(json, Field::KmFromCurrent) {
        lemma_field_values(json, Field::KmFromCurrent);
        lemma_part(number_of(json, Field::KmFromCurrent), 1000);
    } else {
        assert(order::value_of(json, Field::KmFromCurrent) is None);
    }
    if last {
        let then = time_of(json, Field::Timestamp).epoch_minute;
        lemma_field_values(json, Field::RequestedAt);
        lemma_times_are_near(text_of(json, Field::RequestedAt));
        lemma_times_are_near(text_of(json, Field::Timestamp));
        lemma_share(time_of(json, Field::RequestedAt).epoch_minute - then, 1440);
    }
}

/// What a finished vector has where.
pub proof fn lemma_slots(q: Progress)
    requires
        q.out.len() == 16,
    ensures
        q.vector().len() == PACKED_DIMS,
        forall|d: int|
            0 <= d < 16 && d != 2 && d != 5 && d != 6 && d != 11 ==> #[trigger] q.vector()[d]
                == q.out[d],
        q.vector()[2] == helpers::amount_ratio(q.amount, q.average),
        is_flag(q.vector()[11], !q.known.contains(q.merchant)),
        q.last_minute is None || q.last_km is None ==> q.vector()[5] == -SCALE && q.vector()[6]
            == -SCALE,
        q.last_minute is Some && q.last_km is Some ==> q.vector()[5] == helpers::scaled_integer(
            q.requested_minute - q.last_minute.unwrap(),
            1440,
        ) && q.vector()[6] == helpers::scaled(q.last_km.unwrap(), 1000),
{
}

/// One pass has read what `lemma_one_pass_values` says of it.
spec fn has_read(json: Seq<u8>, q: Progress) -> bool {
    &&& q.complete()
    &&& forall|f: Field| #[trigger] q.seen.contains(f) <==> order::has_value(json, f)
}

proof fn lemma_numbers_said(json: Seq<u8>, q: Progress)
    requires
        has_read(json, q),
        q.out[0] == order::value_of(json, Field::Amount).unwrap().out[0],
        q.out[1] == order::value_of(json, Field::Installments).unwrap().out[1],
        q.out[7] == order::value_of(json, Field::KmFromHome).unwrap().out[7],
        q.out[8] == order::value_of(json, Field::TxCount).unwrap().out[8],
        q.out[13] == order::value_of(json, Field::MerchantAverage).unwrap().out[13],
        q.amount == order::value_of(json, Field::Amount).unwrap().amount,
        q.average == order::value_of(json, Field::CustomerAverage).unwrap().average,
    ensures
        is_part(q.out[0], number_of(json, Field::Amount), 10_000),
        is_share(q.out[1], integer_of(json, Field::Installments), 12),
        is_part(q.out[7], number_of(json, Field::KmFromHome), 1000),
        is_share(q.out[8], integer_of(json, Field::TxCount), 20),
        is_part(q.out[13], number_of(json, Field::MerchantAverage), 10_000),
        is_ratio(
            helpers::amount_ratio(q.amount, q.average),
            number_of(json, Field::Amount),
            number_of(json, Field::CustomerAverage),
        ),
{
    lemma_field_values(json, Field::Amount);
    lemma_field_values(json, Field::Installments);
    lemma_field_values(json, Field::CustomerAverage);
    lemma_field_values(json, Field::KmFromHome);
    lemma_field_values(json, Field::TxCount);
    lemma_field_values(json, Field::MerchantAverage);
    lemma_part(number_of(json, Field::Amount), 10_000);
    lemma_part(number_of(json, Field::KmFromHome), 1000);
    lemma_part(number_of(json, Field::MerchantAverage), 10_000);
    lemma_share(integer_of(json, Field::Installments), 12);
    lemma_share(integer_of(json, Field::TxCount), 20);
    lemma_ratio(number_of(json, Field::Amount), number_of(json, Field::CustomerAverage));
}

proof fn lemma_times_said(json: Seq<u8>, q: Progress)
    requires
        has_read(json, q),
        q.out[3] == order::value_of(json, Field::RequestedAt).unwrap().out[3],
        q.out[4] == order::value_of(json, Field::RequestedAt).unwrap().out[4],
        q.requested_minute == order::value_of(json, Field::RequestedAt).unwrap().requested_minute,
    ensures
        is_share(q.out[3], time_of(json, Field::RequestedAt).hour as int, 23),
        is_share(q.out[4], time_of(json, Field::RequestedAt).day_of_week as int, 6),
        q.requested_minute == time_of(json, Field::RequestedAt).epoch_minute,
{
    lemma_field_values(json, Field::RequestedAt);
    lemma_share(time_of(json, Field::RequestedAt).hour as int, 23);
    lemma_share(time_of(json, Field::RequestedAt).day_of_week as int, 6);
}

proof fn lemma_texts_said(json: Seq<u8>, q: Progress)
    requires
        has_read(json, q),
        q.out[9] == order::value_of(json, Field::IsOnline).unwrap().out[9],
        q.out[10] == order::value_of(json, Field::CardPresent).unwrap().out[10],
        q.out[12] == order::value_of(json, Field::Mcc).unwrap().out[12],
        q.merchant == order::value_of(json, Field::MerchantId).unwrap().merchant,
        q.known == order::value_of(json, Field::KnownMerchants).unwrap().known,
    ensures
        is_flag(q.out[9], truth_of(json, Field::IsOnline)),
        is_flag(q.out[10], truth_of(json, Field::CardPresent)),
        is_risk(q.out[12], text_of(json, Field::Mcc)),
        q.merchant == helpers::hash_of(text_of(json, Field::MerchantId)),
        q.known == hashes_of(json),
{
    lemma_field_values(json, Field::IsOnline);
    lemma_field_values(json, Field::CardPresent);
    lemma_field_values(json, Field::Mcc);
    lemma_field_values(json, Field::MerchantId);
    lemma_field_values(json, Field::KnownMerchants);
    law_categories_are_rated(text_of(json, Field::Mcc));
}

} // verus!
