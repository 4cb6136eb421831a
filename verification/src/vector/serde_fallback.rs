//! Any JSON payload, with member names in any case and with or without separators.
//!
//! The JSON texts themselves are checked and decoded by `serde_json`; which member stands for which
//! field, and what the fields make of the vector, is decided here.

use vstd::prelude::*;
use vstd::string::StringSliceAdditionalSpecFns;
use vstd::utf8;

use crate::bytes;
use crate::vector::binary64;
use crate::vector::binary64::Binary64;
use crate::vector::compact::MAX_KNOWN;
use crate::vector::helpers;
use crate::vector::numeral;
use crate::vector::scan;
use crate::vector::single_pass;
use crate::vector::single_pass::Field;
use crate::vector::single_pass::Found;
use crate::vector::single_pass::Section;
use crate::vector::ParseError;
use crate::QueryVector;
use crate::SCALE;

verus! {

/// Whether `serde_json` takes the bytes for one JSON value.
pub uninterp spec fn json_accepts(text: Seq<u8>) -> bool;

/// The string that `serde_json` reads from the bytes, if they are one JSON string.
pub uninterp spec fn json_string(text: Seq<u8>) -> Option<Seq<char>>;

/// The strings that `serde_json` reads from the bytes, if they are one JSON array of strings.
pub uninterp spec fn json_strings(text: Seq<u8>) -> Option<Seq<Seq<char>>>;

/// The `i32` that `serde_json` reads from the bytes, if they are one JSON number that fits.
pub uninterp spec fn json_i32(text: Seq<u8>) -> Option<i32>;

/// The number that `serde_json` reads from the bytes, as its `Number` prints it.
pub uninterp spec fn json_number(text: Seq<u8>) -> Option<Seq<char>>;

/// Calls `serde_json::from_slice` for `serde::de::IgnoredAny`, which reads one JSON value and keeps
/// nothing of it. Claimed: whether it succeeds depends on the bytes alone.
#[verifier::external_body]
fn check_json(text: &[u8]) -> (r: bool)
    ensures
        r == json_accepts(text@),
{
    serde_json::from_slice::<serde::de::IgnoredAny>(text).is_ok()
}

/// Calls `serde_json::from_slice` for `String`. Claimed: the result depends on the bytes alone.
#[verifier::external_body]
pub(crate) fn decode_string(text: &[u8]) -> (r: Option<String>)
    ensures
        r is Some <==> json_string(text@) is Some,
        r matches Some(s) ==> json_string(text@) == Some(s@),
{
    serde_json::from_slice::<String>(text).ok()
}

/// Calls `serde_json::from_slice` for `Vec<String>`. Claimed: the result depends on the bytes alone.
#[verifier::external_body]
fn decode_strings(text: &[u8]) -> (r: Option<Vec<String>>)
    ensures
        r is Some <==> json_strings(text@) is Some,
        r matches Some(v) ==> json_strings(text@) == Some(v@.map_values(|s: String| s@)),
{
    serde_json::from_slice::<Vec<String>>(text).ok()
}

/// Calls `serde_json::from_slice` for `i32`. Claimed: the result depends on the bytes alone.
#[verifier::external_body]
fn decode_i32(text: &[u8]) -> (r: Option<i32>)
    ensures
        r == json_i32(text@),
{
    serde_json::from_slice::<i32>(text).ok()
}

/// Calls `serde_json::from_slice` for `serde_json::Number` and prints the number: an integer in
/// full, any other number with the shortest digits that give it back. Claimed: the result depends
/// on the bytes alone.
#[verifier::external_body]
fn decode_number(text: &[u8]) -> (r: Option<String>)
    ensures
        r is Some <==> json_number(text@) is Some,
        r matches Some(s) ==> json_number(text@) == Some(s@),
{
    match serde_json::from_slice::<serde_json::Number>(text) {
        Ok(number) => Some(number.to_string()),
        Err(_) => None,
    }
}

/// A member name without `_` and `-`, in lower case.
pub open spec fn normalized(name: Seq<u8>) -> Seq<u8> {
    name.filter(|b: u8| b != '_' as u8 && b != '-' as u8).map_values(|b: u8| bytes::lower(b))
}

fn normalize(name: &[u8]) -> (r: Vec<u8>)
    ensures
        r@ == normalized(name@),
{
    let ghost kept = |b: u8| b != '_' as u8 && b != '-' as u8;
    let mut r: Vec<u8> = Vec::new();
    let mut i: usize = 0;
    proof {
        reveal(Seq::filter);
        assert(r@ =~= normalized(name@.take(0)));
    }
    while i < name.len()
        invariant
            i <= name@.len(),
            r@ == normalized(name@.take(i as int)),
        decreases name@.len() - i,
    {
        let b: u8 = name[i];
        proof {
            reveal(Seq::filter);
            assert(name@.take(i + 1).drop_last() =~= name@.take(i as int));
            assert(name@.take(i + 1).last() == b);
        }
        if b != 95 && b != 45 {
            let small: u8 = if 65 <= b && b <= 90 {
                b + 32
            } else {
                b
            };
            r.push(small);
        }
        assert(r@ =~= normalized(name@.take(i + 1)));
        i = i + 1;
    }
    assert(name@.take(name@.len() as int) =~= name@);
    r
}

/// Tells whether two member names are the same but for case and separators.
pub fn field_matches(actual: &str, expected: &str) -> (r: bool)
    ensures
        r == (normalized(actual.spec_bytes()) == normalized(expected.spec_bytes())),
{
    let a = normalize(actual.as_bytes());
    let b = normalize(expected.as_bytes());
    bytes::bytes_equal(&a, &b)
}

/// The name `key` stands for the documented name `name`.
pub open spec fn names(key: Seq<char>, name: Seq<u8>) -> bool {
    normalized(utf8::encode_utf8(key)) == normalized(name)
}

/// The object that a member name of the payload stands for.
pub open spec fn section_like(key: Seq<char>) -> Option<Section> {
    if names(key, "transaction".spec_bytes()) {
        Some(Section::Transaction)
    } else if names(key, "customer".spec_bytes()) {
        Some(Section::Customer)
    } else if names(key, "merchant".spec_bytes()) {
        Some(Section::Merchant)
    } else if names(key, "terminal".spec_bytes()) {
        Some(Section::Terminal)
    } else if names(key, "last_transaction".spec_bytes()) {
        Some(Section::LastTransaction)
    } else {
        None
    }
}

/// The field that a member name of an object stands for.
pub open spec fn field_like(section: Section, key: Seq<char>) -> Option<Field> {
    match section {
        Section::Transaction => if names(key, "amount".spec_bytes()) {
            Some(Field::Amount)
        } else if names(key, "installments".spec_bytes()) {
            Some(Field::Installments)
        } else if names(key, "requested_at".spec_bytes()) {
            Some(Field::RequestedAt)
        } else {
            None
        },
        Section::Customer => if names(key, "avg_amount".spec_bytes()) {
            Some(Field::CustomerAverage)
        } else if names(key, "tx_count_24h".spec_bytes()) {
            Some(Field::TxCount)
        } else if names(key, "known_merchants".spec_bytes()) {
            Some(Field::KnownMerchants)
        } else {
            None
        },
        Section::Merchant => if names(key, "id".spec_bytes()) {
            Some(Field::MerchantId)
        } else if names(key, "mcc".spec_bytes()) {
            Some(Field::Mcc)
        } else if names(key, "avg_amount".spec_bytes()) {
            Some(Field::MerchantAverage)
        } else {
            None
        },
        Section::Terminal => if names(key, "is_online".spec_bytes()) {
            Some(Field::IsOnline)
        } else if names(key, "card_present".spec_bytes()) {
            Some(Field::CardPresent)
        } else if names(key, "km_from_home".spec_bytes()) {
            Some(Field::KmFromHome)
        } else {
            None
        },
        Section::LastTransaction => if names(key, "timestamp".spec_bytes()) {
            Some(Field::Timestamp)
        } else if names(key, "km_from_current".spec_bytes()) {
            Some(Field::KmFromCurrent)
        } else {
            None
        },
    }
}

fn find_section(key: &str) -> (r: Option<Section>)
    ensures
        r == section_like(key@),
{
    if field_matches(key, "transaction") {
        Some(Section::Transaction)
    } else if field_matches(key, "customer") {
        Some(Section::Customer)
    } else if field_matches(key, "merchant") {
        Some(Section::Merchant)
    } else if field_matches(key, "terminal") {
        Some(Section::Terminal)
    } else if field_matches(key, "last_transaction") {
        Some(Section::LastTransaction)
    } else {
        None
    }
}

fn find_field(section: Section, key: &str) -> (r: Option<Field>)
    ensures
        r == field_like(section, key@),
{
    match section {
        Section::Transaction => if field_matches(key, "amount") {
            Some(Field::Amount)
        } else if field_matches(key, "installments") {
            Some(Field::Installments)
        } else if field_matches(key, "requested_at") {
            Some(Field::RequestedAt)
        } else {
            None
        },
        Section::Customer => if field_matches(key, "avg_amount") {
            Some(Field::CustomerAverage)
        } else if field_matches(key, "tx_count_24h") {
            Some(Field::TxCount)
        } else if field_matches(key, "known_merchants") {
            Some(Field::KnownMerchants)
        } else {
            None
        },
        Section::Merchant => if field_matches(key, "id") {
            Some(Field::MerchantId)
        } else if field_matches(key, "mcc") {
            Some(Field::Mcc)
        } else if field_matches(key, "avg_amount") {
            Some(Field::MerchantAverage)
        } else {
            None
        },
        Section::Terminal => if field_matches(key, "is_online") {
            Some(Field::IsOnline)
        } else if field_matches(key, "card_present") {
            Some(Field::CardPresent)
        } else if field_matches(key, "km_from_home") {
            Some(Field::KmFromHome)
        } else {
            None
        },
        Section::LastTransaction => if field_matches(key, "timestamp") {
            Some(Field::Timestamp)
        } else if field_matches(key, "km_from_current") {
            Some(Field::KmFromCurrent)
        } else {
            None
        },
    }
}

/// The values of an object's fields, as far as they have come up.
pub struct ObjectValues {
    pub number: Option<Binary64>,
    pub integer: Option<i32>,
    pub text: Option<Seq<u8>>,
    pub code: Option<Seq<u8>>,
    pub online: Option<bool>,
    pub present: Option<bool>,
    pub known: Option<Seq<Seq<u8>>>,
}

/// The boolean that a JSON text is.
pub open spec fn json_bool(text: Seq<u8>) -> Option<bool> {
    if text == "true".spec_bytes() {
        Some(true)
    } else if text == "false".spec_bytes() {
        Some(false)
    } else {
        None
    }
}

/// The binary64 number that a JSON text is.
pub open spec fn json_double(text: Seq<u8>) -> Option<Binary64> {
    match json_number(text) {
        Some(digits) => numeral::numeral_value(utf8::encode_utf8(digits)),
        None => None,
    }
}

impl ObjectValues {
    pub open spec fn nothing() -> ObjectValues {
        ObjectValues {
            number: None,
            integer: None,
            text: None,
            code: None,
            online: None,
            present: None,
            known: None,
        }
    }

    /// The field takes the JSON text as its value; nothing where the text is of another type.
    pub open spec fn store(self, field: Field, text: Seq<u8>) -> Option<ObjectValues> {
        match field {
            Field::Amount | Field::CustomerAverage | Field::MerchantAverage | Field::KmFromHome
            | Field::KmFromCurrent => match json_double(text) {
                Some(value) => Some(ObjectValues { number: Some(value), ..self }),
                None => None,
            },
            Field::Installments | Field::TxCount => match json_i32(text) {
                Some(value) => Some(ObjectValues { integer: Some(value), ..self }),
                None => None,
            },
            Field::RequestedAt | Field::Timestamp | Field::MerchantId => match json_string(text) {
                Some(value) => Some(ObjectValues { text: Some(utf8::encode_utf8(value)), ..self }),
                None => None,
            },
            Field::Mcc => match json_string(text) {
                Some(value) => Some(ObjectValues { code: Some(utf8::encode_utf8(value)), ..self }),
                None => None,
            },
            Field::IsOnline => match json_bool(text) {
                Some(value) => Some(ObjectValues { online: Some(value), ..self }),
                None => None,
            },
            Field::CardPresent => match json_bool(text) {
                Some(value) => Some(ObjectValues { present: Some(value), ..self }),
                None => None,
            },
            Field::KnownMerchants => match json_strings(text) {
                Some(value) => Some(
                    ObjectValues {
                        known: Some(value.map_values(|s: Seq<char>| utf8::encode_utf8(s))),
                        ..self
                    },
                ),
                None => None,
            },
        }
    }

    /// Every field of the section has come up.
    pub open spec fn complete(self, section: Section) -> bool {
        match section {
            Section::Transaction => self.number is Some && self.integer is Some && self.text is Some,
            Section::Customer => self.number is Some && self.integer is Some && self.known is Some,
            Section::Merchant => self.number is Some && self.text is Some && self.code is Some,
            Section::Terminal => self.number is Some && self.online is Some && self.present is Some,
            Section::LastTransaction => self.number is Some && self.text is Some,
        }
    }
}

/// The values of an object's members from `i` on, and where the object ends.
pub open spec fn object_from(
    json: Seq<u8>,
    i: int,
    section: Section,
    values: ObjectValues,
) -> Option<(ObjectValues, int)>
    decreases json.len() - i,
{
    if i < 0 || i > json.len() {
        None
    } else {
        match single_pass::step_at(json, i) {
            single_pass::Step::End { at } => if values.complete(section) {
                Some((values, at + 1))
            } else {
                None
            },
            single_pass::Step::Broken => None,
            single_pass::Step::Member { from, to, value } => {
                match (json_string(json.subrange(from, to)), scan::value_end(json, value)) {
                    (Some(key), Ok(end)) => {
                        let next = match field_like(section, key) {
                            Some(field) => values.store(field, json.subrange(value, end)),
                            None => Some(values),
                        };
                        proof {
                            single_pass::lemma_step_at(json, i);
                            scan::lemma_value_end(json, value);
                            single_pass::lemma_after_value(json, end);
                        }
                        match next {
                            Some(v) => object_from(
                                json,
                                single_pass::after_value(json, end),
                                section,
                                v,
                            ),
                            None => None,
                        }
                    },
                    _ => None,
                }
            },
        }
    }
}

pub proof fn lemma_object_from(json: Seq<u8>, i: int, section: Section, values: ObjectValues)
    requires
        0 <= i <= json.len(),
    ensures
        object_from(json, i, section, values) matches Some((v, end)) ==> i <= end <= json.len()
            && v.complete(section),
    decreases json.len() - i,
{
    single_pass::lemma_step_at(json, i);
    if let single_pass::Step::Member { from, to, value } = single_pass::step_at(json, i) {
        scan::lemma_value_end(json, value);
        if let (Some(key), Ok(end)) = (
            json_string(json.subrange(from, to)),
            scan::value_end(json, value),
        ) {
            single_pass::lemma_after_value(json, end);
            let next = match field_like(section, key) {
                Some(field) => values.store(field, json.subrange(value, end)),
                None => Some(values),
            };
            if let Some(v) = next {
                lemma_object_from(json, single_pass::after_value(json, end), section, v);
            }
        }
    }
}

/// The objects of a payload, as far as they have come up.
pub struct PayloadValues {
    pub transaction: Option<ObjectValues>,
    pub customer: Option<ObjectValues>,
    pub merchant: Option<ObjectValues>,
    pub terminal: Option<ObjectValues>,
    pub last_transaction: Option<ObjectValues>,
}

impl PayloadValues {
    pub open spec fn nothing() -> PayloadValues {
        PayloadValues {
            transaction: None,
            customer: None,
            merchant: None,
            terminal: None,
            last_transaction: None,
        }
    }

    /// The object `section` has the given values; only the last transaction can be without.
    pub open spec fn with(self, section: Section, values: Option<ObjectValues>) -> PayloadValues {
        match section {
            Section::Transaction => PayloadValues { transaction: values, ..self },
            Section::Customer => PayloadValues { customer: values, ..self },
            Section::Merchant => PayloadValues { merchant: values, ..self },
            Section::Terminal => PayloadValues { terminal: values, ..self },
            Section::LastTransaction => PayloadValues { last_transaction: values, ..self },
        }
    }
}

/// The value of a member of the payload: what the payload then holds, and where the value ends.
pub open spec fn member_value(
    json: Seq<u8>,
    key: Seq<char>,
    value: int,
    payload: PayloadValues,
) -> Option<(PayloadValues, int)> {
    match section_like(key) {
        None => match scan::value_end(json, value) {
            Ok(end) => Some((payload, end)),
            Err(_) => None,
        },
        Some(section) => if scan::byte_at(json, value, '{' as u8) {
            match object_from(json, value + 1, section, ObjectValues::nothing()) {
                Some((values, end)) => Some((payload.with(section, Some(values)), end)),
                None => None,
            }
        } else if section == Section::LastTransaction && bytes::occurs_at(
            json,
            "null".spec_bytes(),
            value,
        ) {
            Some((payload.with(section, None), value + "null".spec_bytes().len()))
        } else {
            None
        },
    }
}

pub proof fn lemma_member_value(
    json: Seq<u8>,
    key: Seq<char>,
    value: int,
    payload: PayloadValues,
)
    requires
        0 <= value <= json.len(),
    ensures
        member_value(json, key, value, payload) matches Some((p, end)) ==> value <= end
            <= json.len(),
{
    scan::lemma_value_end(json, value);
    if let Some(section) = section_like(key) {
        if value < json.len() {
            lemma_object_from(json, value + 1, section, ObjectValues::nothing());
        }
    }
}

/// The objects of the payload's members from `i` on.
pub open spec fn payload_from(json: Seq<u8>, i: int, payload: PayloadValues) -> Option<
    PayloadValues,
>
    decreases json.len() - i,
{
    if i < 0 || i > json.len() {
        None
    } else {
        match single_pass::step_at(json, i) {
            single_pass::Step::End { at } => Some(payload),
            single_pass::Step::Broken => None,
            single_pass::Step::Member { from, to, value } => {
                match json_string(json.subrange(from, to)) {
                    Some(key) => match member_value(json, key, value, payload) {
                        Some((next, end)) => {
                            proof {
                                single_pass::lemma_step_at(json, i);
                                lemma_member_value(json, key, value, payload);
                                single_pass::lemma_after_value(json, end);
                            }
                            payload_from(json, single_pass::after_value(json, end), next)
                        },
                        None => None,
                    },
                    None => None,
                }
            },
        }
    }
}

/// What a payload says.
pub struct PayloadView {
    pub amount: Binary64,
    pub installments: int,
    pub requested_at: Seq<u8>,
    pub customer_average: Binary64,
    pub tx_count: int,
    pub known_merchants: Seq<Seq<u8>>,
    pub merchant_id: Seq<u8>,
    pub mcc: Seq<u8>,
    pub merchant_average: Binary64,
    pub is_online: bool,
    pub card_present: bool,
    pub km_from_home: Binary64,
    pub last_transaction: Option<(Seq<u8>, Binary64)>,
}

/// What the objects of a payload say, if the four that it needs are there.
pub open spec fn said(values: PayloadValues) -> Option<PayloadView> {
    match (values.transaction, values.customer, values.merchant, values.terminal) {
        (Some(transaction), Some(customer), Some(merchant), Some(terminal)) => Some(
            PayloadView {
                amount: transaction.number.unwrap(),
                installments: transaction.integer.unwrap() as int,
                requested_at: transaction.text.unwrap(),
                customer_average: customer.number.unwrap(),
                tx_count: customer.integer.unwrap() as int,
                known_merchants: customer.known.unwrap(),
                merchant_id: merchant.text.unwrap(),
                mcc: merchant.code.unwrap(),
                merchant_average: merchant.number.unwrap(),
                is_online: terminal.online.unwrap(),
                card_present: terminal.present.unwrap(),
                km_from_home: terminal.number.unwrap(),
                last_transaction: match values.last_transaction {
                    Some(last) => Some((last.text.unwrap(), last.number.unwrap())),
                    None => None,
                },
            },
        ),
        _ => None,
    }
}

/// What a JSON text says as a payload.
pub open spec fn payload_of(json: Seq<u8>) -> Option<PayloadView> {
    let a = scan::ws_end(json, 0);
    if json_accepts(json) && scan::byte_at(json, a, '{' as u8) {
        match payload_from(json, a + 1, PayloadValues::nothing()) {
            Some(values) => said(values),
            None => None,
        }
    } else {
        None
    }
}

/// The vector with every dimension that needs one field, but for those of the last transaction.
pub open spec fn single_dimensions(
    out: Seq<i16>,
    payload: PayloadView,
    requested: helpers::ParsedDateTime,
) -> Seq<i16> {
    out.update(0, helpers::scaled(payload.amount, 10_000)).update(
        1,
        helpers::scaled_integer(payload.installments, 12),
    ).update(3, helpers::scaled_integer(requested.hour as int, 23)).update(
        4,
        helpers::scaled_integer(requested.day_of_week as int, 6),
    ).update(7, helpers::scaled(payload.km_from_home, 1000)).update(
        8,
        helpers::scaled_integer(payload.tx_count, 20),
    ).update(9, helpers::flag(payload.is_online)).update(
        10,
        helpers::flag(payload.card_present),
    ).update(12, helpers::risk_of(payload.mcc)).update(
        13,
        helpers::scaled(payload.merchant_average, 10_000),
    )
}

/// The hashes of the merchants that are looked at.
pub open spec fn known_hashes(names: Seq<Seq<u8>>) -> Seq<u64> {
    let count = if names.len() < MAX_KNOWN {
        names.len() as int
    } else {
        MAX_KNOWN as int
    };
    names.take(count).map_values(|s: Seq<u8>| helpers::hash_of(s))
}

/// The vector and the verdict for what a payload says, on top of `out`.
pub open spec fn payload_outcome(payload: PayloadView, out: Seq<i16>) -> (
    Seq<i16>,
    Result<(), ParseError>,
) {
    match helpers::datetime_of(payload.requested_at) {
        Err(e) => (out, Err(e)),
        Ok(requested) => {
            let filled = single_dimensions(out, payload, requested);
            let last: Result<Seq<i16>, ParseError> = match payload.last_transaction {
                Some((timestamp, km)) => match helpers::datetime_of(timestamp) {
                    Ok(time) => Ok(
                        filled.update(
                            5,
                            helpers::scaled_integer(
                                requested.epoch_minute - time.epoch_minute,
                                1440,
                            ),
                        ).update(6, helpers::scaled(km, 1000)),
                    ),
                    Err(e) => Err(e),
                },
                None => Ok(filled.update(5, (-SCALE) as i16).update(6, (-SCALE) as i16)),
            };
            match last {
                Ok(with_last) => (
                    helpers::finished(
                        with_last,
                        payload.amount,
                        payload.customer_average,
                        helpers::hash_of(payload.merchant_id),
                        known_hashes(payload.known_merchants),
                    ),
                    Ok(()),
                ),
                Err(e) => (filled, Err(e)),
            }
        },
    }
}

/// The vector and the verdict for a JSON text, on top of `out`.
pub open spec fn serde_outcome(json: Seq<u8>, out: Seq<i16>) -> (Seq<i16>, Result<(), ParseError>) {
    match payload_of(json) {
        Some(payload) => payload_outcome(payload, out),
        None => (out, Err(ParseError::InvalidFormat)),
    }
}

/// The values of an object's fields, as far as they have come up.
struct Values {
    number: Option<Binary64>,
    integer: Option<i32>,
    text: Option<String>,
    code: Option<String>,
    online: Option<bool>,
    present: Option<bool>,
    known: Option<Vec<String>>,
}

/// The bytes of a text, if there is one.
spec fn text_bytes(text: Option<String>) -> Option<Seq<u8>> {
    match text {
        Some(s) => Some(utf8::encode_utf8(s@)),
        None => None,
    }
}

/// The bytes of each text.
pub open spec fn texts_bytes(texts: Seq<String>) -> Seq<Seq<u8>> {
    texts.map_values(|s: String| utf8::encode_utf8(s@))
}

impl Values {
    spec fn values(self) -> ObjectValues {
        ObjectValues {
            number: self.number,
            integer: self.integer,
            text: text_bytes(self.text),
            code: text_bytes(self.code),
            online: self.online,
            present: self.present,
            known: match self.known {
                Some(v) => Some(texts_bytes(v@)),
                None => None,
            },
        }
    }

    spec fn wf(self) -> bool {
        self.number matches Some(value) ==> value.wf()
    }

    fn new() -> (r: Self)
        ensures
            r.wf(),
            r.values() == ObjectValues::nothing(),
    {
        Values {
            number: None,
            integer: None,
            text: None,
            code: None,
            online: None,
            present: None,
            known: None,
        }
    }

    /// Gives the field the JSON text as its value; tells whether the text is of its type.
    fn store(&mut self, field: Field, text: &[u8]) -> (r: bool)
        requires
            old(self).wf(),
        ensures
            final(self).wf(),
            r <==> old(self).values().store(field, text@) is Some,
            r ==> old(self).values().store(field, text@) == Some(final(self).values()),
    {
        match field {
            Field::Amount | Field::CustomerAverage | Field::MerchantAverage | Field::KmFromHome
            | Field::KmFromCurrent => match decode_double(text) {
                Some(value) => {
                    self.number = Some(value);
                    true
                },
                None => false,
            },
            Field::Installments | Field::TxCount => match decode_i32(text) {
                Some(value) => {
                    self.integer = Some(value);
                    true
                },
                None => false,
            },
            Field::RequestedAt | Field::Timestamp | Field::MerchantId => match decode_string(text) {
                Some(value) => {
                    self.text = Some(value);
                    true
                },
                None => false,
            },
            Field::Mcc => match decode_string(text) {
                Some(value) => {
                    self.code = Some(value);
                    true
                },
                None => false,
            },
            Field::IsOnline => match decode_bool(text) {
                Some(value) => {
                    self.online = Some(value);
                    true
                },
                None => false,
            },
            Field::CardPresent => match decode_bool(text) {
                Some(value) => {
                    self.present = Some(value);
                    true
                },
                None => false,
            },
            Field::KnownMerchants => match decode_strings(text) {
                Some(value) => {
                    proof {
                        let views = value@.map_values(|s: String| s@);
                        assert(views.map_values(|s: Seq<char>| utf8::encode_utf8(s)) =~= texts_bytes(
                            value@,
                        ));
                    }
                    self.known = Some(value);
                    true
                },
                None => false,
            },
        }
    }

    fn complete(&self, section: Section) -> (r: bool)
        ensures
            r == self.values().complete(section),
    {
        match section {
            Section::Transaction => self.number.is_some() && self.integer.is_some()
                && self.text.is_some(),
            Section::Customer => self.number.is_some() && self.integer.is_some()
                && self.known.is_some(),
            Section::Merchant => self.number.is_some() && self.text.is_some()
                && self.code.is_some(),
            Section::Terminal => self.number.is_some() && self.online.is_some()
                && self.present.is_some(),
            Section::LastTransaction => self.number.is_some() && self.text.is_some(),
        }
    }
}

pub(crate) fn decode_bool(text: &[u8]) -> (r: Option<bool>)
    ensures
        r == json_bool(text@),
{
    if bytes::bytes_equal(text, "true".as_bytes()) {
        Some(true)
    } else if bytes::bytes_equal(text, "false".as_bytes()) {
        Some(false)
    } else {
        None
    }
}

pub(crate) fn decode_double(text: &[u8]) -> (r: Option<Binary64>)
    ensures
        r == json_double(text@),
        r matches Some(value) ==> value.wf(),
{
    match decode_number(text) {
        Some(digits) => numeral::parse_numeral(digits.as_str().as_bytes()),
        None => None,
    }
}

/// Reads the members of an object.
fn read_object(json: &[u8], i: usize, section: Section) -> (r: Option<(Values, usize)>)
    requires
        i <= json@.len(),
    ensures
        r is Some <==> object_from(json@, i as int, section, ObjectValues::nothing()) is Some,
        r matches Some((v, end)) ==> object_from(
            json@,
            i as int,
            section,
            ObjectValues::nothing(),
        ) == Some((v.values(), end as int)) && v.wf() && i <= end <= json@.len()
            && v.values().complete(section),
{
    let mut values = Values::new();
    let mut j: usize = i;
    loop
        invariant
            i <= j <= json@.len(),
            values.wf(),
            object_from(json@, j as int, section, values.values()) == object_from(
                json@,
                i as int,
                section,
                ObjectValues::nothing(),
            ),
        decreases json@.len() - j,
    {
        match single_pass::find_step(json, j) {
            Found::End { at } => {
                if values.complete(section) {
                    return Some((values, at + 1));
                }
                return None;
            },
            Found::Broken => {
                return None;
            },
            Found::Member { from, to, value } => {
                let key = match decode_string(&json[from..to]) {
                    Some(key) => key,
                    None => return None,
                };
                let end: usize = match scan::skip_value(json, value) {
                    Ok(end) => end,
                    Err(_) => return None,
                };
                if let Some(field) = find_field(section, key.as_str()) {
                    if !values.store(field, &json[value..end]) {
                        return None;
                    }
                }
                j = single_pass::skip_comma(json, end);
            },
        }
    }
}

/// The objects of a payload, as far as they have come up.
struct Objects {
    transaction: Option<Values>,
    customer: Option<Values>,
    merchant: Option<Values>,
    terminal: Option<Values>,
    last_transaction: Option<Values>,
}

spec fn object_values(values: Option<Values>) -> Option<ObjectValues> {
    match values {
        Some(v) => Some(v.values()),
        None => None,
    }
}

spec fn object_wf(values: Option<Values>, section: Section) -> bool {
    values matches Some(v) ==> v.wf() && v.values().complete(section)
}

impl Objects {
    spec fn values(self) -> PayloadValues {
        PayloadValues {
            transaction: object_values(self.transaction),
            customer: object_values(self.customer),
            merchant: object_values(self.merchant),
            terminal: object_values(self.terminal),
            last_transaction: object_values(self.last_transaction),
        }
    }

    spec fn wf(self) -> bool {
        &&& object_wf(self.transaction, Section::Transaction)
        &&& object_wf(self.customer, Section::Customer)
        &&& object_wf(self.merchant, Section::Merchant)
        &&& object_wf(self.terminal, Section::Terminal)
        &&& object_wf(self.last_transaction, Section::LastTransaction)
    }

    fn set(&mut self, section: Section, values: Option<Values>)
        requires
            old(self).wf(),
            object_wf(values, section),
        ensures
            final(self).wf(),
            final(self).values() == old(self).values().with(section, object_values(values)),
    {
        match section {
            Section::Transaction => {
                self.transaction = values;
            },
            Section::Customer => {
                self.customer = values;
            },
            Section::Merchant => {
                self.merchant = values;
            },
            Section::Terminal => {
                self.terminal = values;
            },
            Section::LastTransaction => {
                self.last_transaction = values;
            },
        }
    }

    /// Reads the value of a member; gives where it ends.
    fn read_member(&mut self, json: &[u8], key: &str, value: usize) -> (r: Option<usize>)
        requires
            old(self).wf(),
            value <= json@.len(),
        ensures
            final(self).wf(),
            r is Some <==> member_value(json@, key@, value as int, old(self).values()) is Some,
            r matches Some(end) ==> member_value(json@, key@, value as int, old(self).values())
                == Some((final(self).values(), end as int)) && value <= end <= json@.len(),
    {
        match find_section(key) {
            None => match scan::skip_value(json, value) {
                Ok(end) => Some(end),
                Err(_) => None,
            },
            Some(section) => {
                if scan::is_byte(json, value, 123) {
                    match read_object(json, value + 1, section) {
                        Some((values, end)) => {
                            self.set(section, Some(values));
                            Some(end)
                        },
                        None => None,
                    }
                } else if section == Section::LastTransaction {
                    let null = "null".as_bytes();
                    if bytes::matches_at(json, null, value) {
                        self.set(section, None);
                        Some(value + null.len())
                    } else {
                        None
                    }
                } else {
                    None
                }
            },
        }
    }
}

/// The transaction of a payload.
pub struct Transaction {
    pub amount: Binary64,
    pub installments: i32,
    pub requested_at: String,
}

/// The customer of a payload.
pub struct Customer {
    pub avg_amount: Binary64,
    pub tx_count_24h: i32,
    pub known_merchants: Vec<String>,
}

/// The merchant of a payload.
pub struct Merchant {
    pub id: String,
    pub mcc: String,
    pub avg_amount: Binary64,
}

/// The terminal of a payload.
pub struct Terminal {
    pub is_online: bool,
    pub card_present: bool,
    pub km_from_home: Binary64,
}

/// The customer's transaction before this one.
pub struct LastTransaction {
    pub timestamp: String,
    pub km_from_current: Binary64,
}

/// A transaction with all that goes with it.
pub struct Payload {
    pub transaction: Transaction,
    pub customer: Customer,
    pub merchant: Merchant,
    pub terminal: Terminal,
    pub last_transaction: Option<LastTransaction>,
}

impl View for Payload {
    type V = PayloadView;

    open spec fn view(&self) -> PayloadView {
        PayloadView {
            amount: self.transaction.amount,
            installments: self.transaction.installments as int,
            requested_at: utf8::encode_utf8(self.transaction.requested_at@),
            customer_average: self.customer.avg_amount,
            tx_count: self.customer.tx_count_24h as int,
            known_merchants: texts_bytes(self.customer.known_merchants@),
            merchant_id: utf8::encode_utf8(self.merchant.id@),
            mcc: utf8::encode_utf8(self.merchant.mcc@),
            merchant_average: self.merchant.avg_amount,
            is_online: self.terminal.is_online,
            card_present: self.terminal.card_present,
            km_from_home: self.terminal.km_from_home,
            last_transaction: match self.last_transaction {
                Some(last) => Some((utf8::encode_utf8(last.timestamp@), last.km_from_current)),
                None => None,
            },
        }
    }
}

impl Payload {
    /// The numbers of the payload are numbers.
    pub open spec fn wf(self) -> bool {
        &&& self.transaction.amount.wf()
        &&& self.customer.avg_amount.wf()
        &&& self.merchant.avg_amount.wf()
        &&& self.terminal.km_from_home.wf()
        &&& self.last_transaction matches Some(last) ==> last.km_from_current.wf()
    }
}

/// What the objects of a payload say.
fn assemble(objects: Objects) -> (r: Option<Payload>)
    requires
        objects.wf(),
    ensures
        r is Some <==> said(objects.values()) is Some,
        r matches Some(p) ==> said(objects.values()) == Some(p@) && p.wf(),
{
    match (objects.transaction, objects.customer, objects.merchant, objects.terminal) {
        (Some(transaction), Some(customer), Some(merchant), Some(terminal)) => {
            let last_transaction = match objects.last_transaction {
                Some(last) => Some(
                    LastTransaction {
                        timestamp: last.text.unwrap(),
                        km_from_current: last.number.unwrap(),
                    },
                ),
                None => None,
            };
            Some(
                Payload {
                    transaction: Transaction {
                        amount: transaction.number.unwrap(),
                        installments: transaction.integer.unwrap(),
                        requested_at: transaction.text.unwrap(),
                    },
                    customer: Customer {
                        avg_amount: customer.number.unwrap(),
                        tx_count_24h: customer.integer.unwrap(),
                        known_merchants: customer.known.unwrap(),
                    },
                    merchant: Merchant {
                        id: merchant.text.unwrap(),
                        mcc: merchant.code.unwrap(),
                        avg_amount: merchant.number.unwrap(),
                    },
                    terminal: Terminal {
                        is_online: terminal.online.unwrap(),
                        card_present: terminal.present.unwrap(),
                        km_from_home: terminal.number.unwrap(),
                    },
                    last_transaction,
                },
            )
        },
        _ => None,
    }
}

/// Reads a JSON text as a payload.
pub fn read_payload(json: &[u8]) -> (r: Option<Payload>)
    ensures
        r is Some <==> payload_of(json@) is Some,
        r matches Some(p) ==> payload_of(json@) == Some(p@) && p.wf(),
{
    if !check_json(json) {
        return None;
    }
    let a: usize = scan::skip_ws(json, 0);
    if !scan::is_byte(json, a, 123) {
        return None;
    }
    let mut objects = Objects {
        transaction: None,
        customer: None,
        merchant: None,
        terminal: None,
        last_transaction: None,
    };
    let mut j: usize = a + 1;
    loop
        invariant
            a < j <= json@.len(),
            objects.wf(),
            json_accepts(json@),
            a == scan::ws_end(json@, 0),
            scan::byte_at(json@, a as int, '{' as u8),
            payload_from(json@, j as int, objects.values()) == payload_from(
                json@,
                a + 1,
                PayloadValues::nothing(),
            ),
        decreases json@.len() - j,
    {
        match single_pass::find_step(json, j) {
            Found::End { .. } => {
                return assemble(objects);
            },
            Found::Broken => {
                return None;
            },
            Found::Member { from, to, value } => {
                let key = match decode_string(&json[from..to]) {
                    Some(key) => key,
                    None => return None,
                };
                match objects.read_member(json, key.as_str(), value) {
                    Some(end) => {
                        j = single_pass::skip_comma(json, end);
                    },
                    None => return None,
                }
            },
        }
    }
}

/// Hashes the known merchants that are looked at.
fn hash_known(names: &Vec<String>) -> (r: Vec<u64>)
    ensures
        r@ == known_hashes(texts_bytes(names@)),
{
    let count: usize = if names.len() < MAX_KNOWN {
        names.len()
    } else {
        MAX_KNOWN
    };
    let mut r: Vec<u64> = Vec::new();
    let mut i: usize = 0;
    while i < count
        invariant
            i <= count <= names@.len(),
            r@.len() == i,
            forall|k: int| 0 <= k < i ==> r@[k] == helpers::hash_of(utf8::encode_utf8(names@[k]@)),
        decreases count - i,
    {
        r.push(helpers::hash_bytes(names[i].as_str().as_bytes()));
        i = i + 1;
    }
    assert(r@ =~= known_hashes(texts_bytes(names@)));
    r
}

/// Fills the vector from a payload.
pub fn fill_from_payload(payload: &Payload, out: &mut QueryVector) -> (r: Result<(), ParseError>)
    requires
        payload.wf(),
    ensures
        (final(out)@, r) == payload_outcome(payload@, old(out)@),
{
    let requested = match helpers::parse_datetime(
        payload.transaction.requested_at.as_str().as_bytes(),
    ) {
        Ok(time) => time,
        Err(e) => return Err(e),
    };
    out[0] = helpers::scale_down(payload.transaction.amount, 10_000);
    out[1] = helpers::scale_down_integer(payload.transaction.installments as i64, 12);
    out[3] = helpers::scale_down_integer(requested.hour as i64, 23);
    out[4] = helpers::scale_down_integer(requested.day_of_week as i64, 6);
    out[7] = helpers::scale_down(payload.terminal.km_from_home, 1000);
    out[8] = helpers::scale_down_integer(payload.customer.tx_count_24h as i64, 20);
    out[9] = helpers::scale_flag(payload.terminal.is_online);
    out[10] = helpers::scale_flag(payload.terminal.card_present);
    out[12] = helpers::scale_risk(payload.merchant.mcc.as_str().as_bytes());
    out[13] = helpers::scale_down(payload.merchant.avg_amount, 10_000);
    assert(out@ == single_dimensions(old(out)@, payload@, requested));
    match &payload.last_transaction {
        Some(last) => {
            let time = match helpers::parse_datetime(last.timestamp.as_str().as_bytes()) {
                Ok(time) => time,
                Err(e) => return Err(e),
            };
            out[5] = helpers::scale_down_integer(requested.epoch_minute - time.epoch_minute, 1440);
            out[6] = helpers::scale_down(last.km_from_current, 1000);
        },
        None => {
            out[5] = -SCALE;
            out[6] = -SCALE;
        },
    }
    let known = hash_known(&payload.customer.known_merchants);
    helpers::finish_vector(
        out,
        payload.transaction.amount,
        payload.customer.avg_amount,
        helpers::hash_bytes(payload.merchant.id.as_str().as_bytes()),
        &known,
    );
    Ok(())
}

/// Reads any JSON payload.
pub fn try_parse_serde(payload: &[u8], out: &mut QueryVector) -> (r: Result<(), ParseError>)
    ensures
        (final(out)@, r) == serde_outcome(payload@, old(out)@),
{
    match read_payload(payload) {
        Some(parsed) => fill_from_payload(&parsed, out),
        None => Err(ParseError::InvalidFormat),
    }
}

} // verus!
