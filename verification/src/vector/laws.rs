//! What holds of the vectors of transactions.

use vstd::prelude::*;
use vstd::string::StringSliceAdditionalSpecFns;

use crate::vector;
use crate::vector::binary64::Binary64;
use crate::vector::compact;
use crate::vector::compact::State;
use crate::vector::helpers;
use crate::vector::serde_fallback;
use crate::vector::single_pass;
use crate::vector::single_pass::Field;
use crate::vector::single_pass::Progress;
use crate::vector::single_pass::Section;
use crate::vector::single_pass::Step;

verus! {

/// The dimensions that only pad a vector are 0.
pub open spec fn padded(out: Seq<i16>) -> bool {
    out.len() == 16 && out[14] == 0 && out[15] == 0
}

proof fn lemma_store_padded(p: Progress, field: Field, json: Seq<u8>, at: int)
    requires
        padded(p.out),
    ensures
        padded(p.store(field, json, at).0.out),
{
    reveal(Progress::store);
}

proof fn lemma_members_padded(json: Seq<u8>, i: int, section: Section, p: Progress)
    requires
        0 <= i <= json.len(),
        padded(p.out),
    ensures
        padded(single_pass::members(json, i, section, p).0.out),
    decreases json.len() - i,
{
    single_pass::lemma_step_at(json, i);
    if let Step::Member { from, to, value } = single_pass::step_at(json, i) {
        let name = json.subrange(from + 1, to - 1);
        let (q, error) = match single_pass::field_named(section, name) {
            Some(field) => p.store(field, json, value),
            None => (p, None),
        };
        if let Some(field) = single_pass::field_named(section, name) {
            lemma_store_padded(p, field, json, value);
        }
        if error is None {
            vector::scan::lemma_value_end(json, value);
            if let Ok(end) = vector::scan::value_end(json, value) {
                single_pass::lemma_after_value(json, end);
                lemma_members_padded(json, single_pass::after_value(json, end), section, q);
            }
        }
    }
}

proof fn lemma_sections_padded(json: Seq<u8>, i: int, p: Progress)
    requires
        0 <= i <= json.len(),
        padded(p.out),
    ensures
        padded(single_pass::sections(json, i, p).0.out),
    decreases json.len() - i,
{
    single_pass::lemma_step_at(json, i);
    if let Step::Member { from, to, value } = single_pass::step_at(json, i) {
        let key = json.subrange(from + 1, to - 1);
        let (q, result) = single_pass::section_value(json, key, value, p);
        single_pass::lemma_section_value(json, key, value, p);
        if value < json.len() {
            let begun = Progress { seen_last_transaction: true, ..p };
            lemma_members_padded(json, value + 1, Section::LastTransaction, begun);
            if let Some(section) = single_pass::section_named(key) {
                lemma_members_padded(json, value + 1, section, p);
            }
        }
        assert(padded(q.out));
        if let Ok(end) = result {
            single_pass::lemma_after_value(json, end);
            lemma_sections_padded(json, single_pass::after_value(json, end), q);
        }
    }
}

proof fn lemma_single_pass_padded(json: Seq<u8>)
    ensures
        padded(single_pass::single_pass_outcome(json).0),
{
    let p = Progress::start();
    vector::scan::lemma_ws_end(json, 0);
    let a = vector::scan::ws_end(json, 0);
    if vector::scan::byte_at(json, a, '{' as u8) {
        lemma_sections_padded(json, a + 1, p);
    }
}

proof fn lemma_expect_padded(s: State, json: Seq<u8>, text: Seq<u8>)
    requires
        padded(s.out),
    ensures
        padded(s.expect(json, text).out),
{
}

proof fn lemma_slots_padded(s: State, json: Seq<u8>, slot: int, divisor: nat)
    requires
        padded(s.out),
        0 <= slot < 14,
    ensures
        padded(s.number_slot(json, slot, divisor).out),
        padded(s.integer_slot(json, slot, divisor).out),
        padded(s.boolean_slot(json, slot).out),
{
}

proof fn lemma_takes_padded(s: State, json: Seq<u8>)
    requires
        padded(s.out),
    ensures
        padded(s.text(json).0.out),
        padded(s.take_amount(json).out),
        padded(s.take_average(json).out),
        padded(s.take_requested_at(json).out),
        padded(s.take_timestamp(json).out),
        padded(s.take_merchant(json).out),
        padded(s.take_mcc(json).out),
        padded(s.take_known(json).out),
        padded(s.finish(json).out),
{
}

proof fn lemma_transaction_padded(json: Seq<u8>)
    ensures
        padded(compact::after_transaction(json).out),
{
    let s0 = State::start();
    lemma_expect_padded(s0, json, "{\"id\":\"".spec_bytes());
    let s1 = s0.expect(json, "{\"id\":\"".spec_bytes());
    lemma_takes_padded(s1, json);
    let s2 = s1.text(json).0;
    lemma_expect_padded(s2, json, ",\"transaction\":{\"amount\":".spec_bytes());
    let s3 = s2.expect(json, ",\"transaction\":{\"amount\":".spec_bytes());
    lemma_takes_padded(s3, json);
    let s4 = s3.take_amount(json);
    lemma_expect_padded(s4, json, ",\"installments\":".spec_bytes());
    let s5 = s4.expect(json, ",\"installments\":".spec_bytes());
    lemma_slots_padded(s5, json, 1, 12);
    let s6 = s5.integer_slot(json, 1, 12);
    lemma_expect_padded(s6, json, ",\"requested_at\":\"".spec_bytes());
    let s7 = s6.expect(json, ",\"requested_at\":\"".spec_bytes());
    lemma_takes_padded(s7, json);
}

proof fn lemma_customer_padded(json: Seq<u8>, s0: State)
    requires
        padded(s0.out),
    ensures
        padded(compact::after_customer(json, s0).out),
{
    lemma_expect_padded(s0, json, "},\"customer\":{\"avg_amount\":".spec_bytes());
    let s1 = s0.expect(json, "},\"customer\":{\"avg_amount\":".spec_bytes());
    lemma_takes_padded(s1, json);
    let s2 = s1.take_average(json);
    lemma_expect_padded(s2, json, ",\"tx_count_24h\":".spec_bytes());
    let s3 = s2.expect(json, ",\"tx_count_24h\":".spec_bytes());
    lemma_slots_padded(s3, json, 8, 20);
    let s4 = s3.integer_slot(json, 8, 20);
    lemma_expect_padded(s4, json, ",\"known_merchants\":".spec_bytes());
    let s5 = s4.expect(json, ",\"known_merchants\":".spec_bytes());
    lemma_takes_padded(s5, json);
}

proof fn lemma_merchant_padded(json: Seq<u8>, s0: State)
    requires
        padded(s0.out),
    ensures
        padded(compact::after_merchant(json, s0).out),
{
    lemma_expect_padded(s0, json, "},\"merchant\":{\"id\":\"".spec_bytes());
    let s1 = s0.expect(json, "},\"merchant\":{\"id\":\"".spec_bytes());
    lemma_takes_padded(s1, json);
    let s2 = s1.take_merchant(json);
    lemma_expect_padded(s2, json, ",\"mcc\":\"".spec_bytes());
    let s3 = s2.expect(json, ",\"mcc\":\"".spec_bytes());
    lemma_takes_padded(s3, json);
    let s4 = s3.take_mcc(json);
    lemma_expect_padded(s4, json, ",\"avg_amount\":".spec_bytes());
    let s5 = s4.expect(json, ",\"avg_amount\":".spec_bytes());
    lemma_slots_padded(s5, json, 13, 10_000);
}

proof fn lemma_terminal_padded(json: Seq<u8>, s0: State)
    requires
        padded(s0.out),
    ensures
        padded(compact::after_terminal(json, s0).out),
{
    lemma_expect_padded(s0, json, "},\"terminal\":{\"is_online\":".spec_bytes());
    let s1 = s0.expect(json, "},\"terminal\":{\"is_online\":".spec_bytes());
    lemma_slots_padded(s1, json, 9, 1);
    let s2 = s1.boolean_slot(json, 9);
    lemma_expect_padded(s2, json, ",\"card_present\":".spec_bytes());
    let s3 = s2.expect(json, ",\"card_present\":".spec_bytes());
    lemma_slots_padded(s3, json, 10, 1);
    let s4 = s3.boolean_slot(json, 10);
    lemma_expect_padded(s4, json, ",\"km_from_home\":".spec_bytes());
    let s5 = s4.expect(json, ",\"km_from_home\":".spec_bytes());
    lemma_slots_padded(s5, json, 7, 1000);
}

proof fn lemma_last_padded(json: Seq<u8>, s: State)
    requires
        padded(s.out),
    ensures
        padded(s.take_last_transaction(json).out),
{
    let s1 = s.expect(json, "{\"timestamp\":\"".spec_bytes());
    lemma_takes_padded(s1, json);
    let s2 = s1.take_timestamp(json);
    let s3 = s2.expect(json, ",\"km_from_current\":".spec_bytes());
    lemma_slots_padded(s3, json, 6, 1000);
}

proof fn lemma_compact_padded(json: Seq<u8>)
    ensures
        padded(compact::compact_outcome(json).out),
{
    let t = compact::after_transaction(json);
    lemma_transaction_padded(json);
    let c = compact::after_customer(json, t);
    lemma_customer_padded(json, t);
    let m = compact::after_merchant(json, c);
    lemma_merchant_padded(json, c);
    let e = compact::after_terminal(json, m);
    lemma_terminal_padded(json, m);
    let l = e.expect(json, "},\"last_transaction\":".spec_bytes());
    lemma_expect_padded(e, json, "},\"last_transaction\":".spec_bytes());
    lemma_last_padded(json, l);
    lemma_takes_padded(l.take_last_transaction(json), json);
}

proof fn lemma_update_padded(out: Seq<i16>, slot: int, value: i16)
    requires
        padded(out),
        0 <= slot < 14,
    ensures
        padded(out.update(slot, value)),
{
}

proof fn lemma_updates_padded(out: Seq<i16>, v: Seq<i16>)
    requires
        padded(out),
    ensures
        padded(
            out.update(0, v[0]).update(1, v[1]).update(3, v[2]).update(4, v[3]).update(
                7,
                v[4],
            ).update(8, v[5]).update(9, v[6]).update(10, v[7]).update(12, v[8]).update(13, v[9]),
        ),
{
}

proof fn lemma_single_dimensions_padded(
    out: Seq<i16>,
    payload: serde_fallback::PayloadView,
    requested: helpers::ParsedDateTime,
)
    requires
        padded(out),
    ensures
        padded(serde_fallback::single_dimensions(out, payload, requested)),
{
    let v = seq![
        helpers::scaled(payload.amount, 10_000),
        helpers::scaled_integer(payload.installments, 12),
        helpers::scaled_integer(requested.hour as int, 23),
        helpers::scaled_integer(requested.day_of_week as int, 6),
        helpers::scaled(payload.km_from_home, 1000),
        helpers::scaled_integer(payload.tx_count, 20),
        helpers::flag(payload.is_online),
        helpers::flag(payload.card_present),
        helpers::risk_of(payload.mcc),
        helpers::scaled(payload.merchant_average, 10_000),
    ];
    lemma_updates_padded(out, v);
}

proof fn lemma_finished_padded(
    out: Seq<i16>,
    amount: Binary64,
    average: Binary64,
    merchant: u64,
    known: Seq<u64>,
)
    requires
        padded(out),
    ensures
        padded(helpers::finished(out, amount, average, merchant, known)),
{
    let ratio = helpers::amount_ratio(amount, average);
    lemma_update_padded(out, 2, ratio);
    lemma_update_padded(out.update(2, ratio), 11, helpers::flag(!known.contains(merchant)));
}

proof fn lemma_payload_padded(payload: serde_fallback::PayloadView, out: Seq<i16>)
    requires
        padded(out),
    ensures
        padded(serde_fallback::payload_outcome(payload, out).0),
{
    if let Ok(requested) = helpers::datetime_of(payload.requested_at) {
        let filled = serde_fallback::single_dimensions(out, payload, requested);
        lemma_single_dimensions_padded(out, payload, requested);
        let merchant = helpers::hash_of(payload.merchant_id);
        let known = serde_fallback::known_hashes(payload.known_merchants);
        match payload.last_transaction {
            Some((timestamp, km)) => {
                if let Ok(time) = helpers::datetime_of(timestamp) {
                    let minutes = helpers::scaled_integer(
                        requested.epoch_minute - time.epoch_minute,
                        1440,
                    );
                    let distance = helpers::scaled(km, 1000);
                    let with_last = filled.update(5, minutes).update(6, distance);
                    lemma_update_padded(filled, 5, minutes);
                    lemma_update_padded(filled.update(5, minutes), 6, distance);
                    lemma_finished_padded(
                        with_last,
                        payload.amount,
                        payload.customer_average,
                        merchant,
                        known,
                    );
                }
            },
            None => {
                let none = (-crate::SCALE) as i16;
                lemma_update_padded(filled, 5, none);
                lemma_update_padded(filled.update(5, none), 6, none);
                lemma_finished_padded(
                    filled.update(5, none).update(6, none),
                    payload.amount,
                    payload.customer_average,
                    merchant,
                    known,
                );
            },
        }
    }
}

proof fn lemma_serde_padded(json: Seq<u8>, out: Seq<i16>)
    requires
        padded(out),
    ensures
        padded(serde_fallback::serde_outcome(json, out).0),
{
    let read = serde_fallback::payload_of(json);
    if let Some(payload) = read {
        lemma_payload_padded(payload, out);
    }
}

/// The dimensions that only pad a vector are 0 in the vector of every transaction.
pub proof fn law_vectors_are_padded_with_zeros(payload: Seq<u8>)
    ensures
        padded(vector::query_outcome(payload).0),
{
    lemma_compact_padded(payload);
    lemma_single_pass_padded(payload);
    lemma_serde_padded(payload, vector::zeros());
    reveal(vector::query_outcome);
}

/// The dimension is the one that the field gives.
pub open spec fn gives(field: Field, slot: int) -> bool {
    match field {
        Field::Amount => slot == 0,
        Field::Installments => slot == 1,
        Field::RequestedAt => slot == 3 || slot == 4,
        Field::KmFromHome => slot == 7,
        Field::TxCount => slot == 8,
        Field::IsOnline => slot == 9,
        Field::CardPresent => slot == 10,
        Field::Mcc => slot == 12,
        Field::MerchantAverage => slot == 13,
        _ => false,
    }
}

/// What a field's value changes is the field's alone, and does not depend on what was read before.
pub proof fn lemma_store_changes(p: Progress, field: Field, json: Seq<u8>, at: int)
    requires
        p.out.len() == 16,
    ensures
        p.store(field, json, at).1 == Progress::start().store(field, json, at).1,
        p.store(field, json, at).1 is None ==> ({
            let q = p.store(field, json, at).0;
            let d = Progress::start().store(field, json, at).0;
            &&& q.out.len() == 16
            &&& forall|i: int|
                0 <= i < 16 ==> #[trigger] q.out[i] == (if gives(field, i) {
                    d.out[i]
                } else {
                    p.out[i]
                })
            &&& q.amount == (if field == Field::Amount {
                d.amount
            } else {
                p.amount
            })
            &&& q.average == (if field == Field::CustomerAverage {
                d.average
            } else {
                p.average
            })
            &&& q.merchant == (if field == Field::MerchantId {
                d.merchant
            } else {
                p.merchant
            })
            &&& q.known == (if field == Field::KnownMerchants {
                d.known
            } else {
                p.known
            })
            &&& q.requested_minute == (if field == Field::RequestedAt {
                d.requested_minute
            } else {
                p.requested_minute
            })
            &&& q.last_minute == (if field == Field::Timestamp {
                d.last_minute
            } else {
                p.last_minute
            })
            &&& q.last_km == (if field == Field::KmFromCurrent {
                d.last_km
            } else {
                p.last_km
            })
            &&& q.seen == p.seen.insert(field)
            &&& q.seen_last_transaction == p.seen_last_transaction
        }),
{
    reveal(Progress::store);
}

/// The order in which two fields come does not change the vector: whatever was read before, reading
/// the one and then the other gives the same as the other way round.
pub proof fn law_field_order_does_not_matter(
    p: Progress,
    f: Field,
    g: Field,
    json: Seq<u8>,
    at_f: int,
    at_g: int,
)
    requires
        f != g,
        p.out.len() == 16,
        p.store(f, json, at_f).1 is None,
        p.store(g, json, at_g).1 is None,
    ensures
        p.store(f, json, at_f).0.store(g, json, at_g).1 is None,
        p.store(g, json, at_g).0.store(f, json, at_f).1 is None,
        p.store(f, json, at_f).0.store(g, json, at_g).0 == p.store(g, json, at_g).0.store(
            f,
            json,
            at_f,
        ).0,
{
    let pf = p.store(f, json, at_f).0;
    let pg = p.store(g, json, at_g).0;
    lemma_store_changes(p, f, json, at_f);
    lemma_store_changes(p, g, json, at_g);
    lemma_store_changes(pf, g, json, at_g);
    lemma_store_changes(pg, f, json, at_f);
    let a = pf.store(g, json, at_g).0;
    let b = pg.store(f, json, at_f).0;
    assert forall|i: int| 0 <= i < 16 implies a.out[i] == b.out[i] by {
        assert(!(gives(f, i) && gives(g, i)));
    }
    assert(a.out =~= b.out);
    assert(a.seen =~= b.seen);
}

} // verus!
