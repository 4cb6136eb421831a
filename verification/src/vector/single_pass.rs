//! One pass over a payload in any layout: members in any order, unknown members skipped, names
//! spelled as documented.

use vstd::prelude::*;
use vstd::string::StringSliceAdditionalSpecFns;

use crate::bytes;
use crate::vector::binary64;
use crate::vector::binary64::Binary64;
use crate::vector::compact::MAX_KNOWN;
use crate::vector::helpers;
use crate::vector::numeral;
use crate::vector::scan;
use crate::vector::ParseError;
use crate::QueryVector;
use crate::PACKED_DIMS;
use crate::SCALE;

verus! {

/// The objects of a payload that hold fields of the vector.
#[derive(Clone, Copy, Debug, PartialEq, Eq, Structural)]
pub enum Section {
    Transaction,
    Customer,
    Merchant,
    Terminal,
    LastTransaction,
}

/// The fields of the vector.
#[derive(Clone, Copy, Debug, PartialEq, Eq, Structural)]
pub enum Field {
    Amount,
    Installments,
    RequestedAt,
    CustomerAverage,
    TxCount,
    KnownMerchants,
    MerchantId,
    Mcc,
    MerchantAverage,
    IsOnline,
    CardPresent,
    KmFromHome,
    Timestamp,
    KmFromCurrent,
}

/// The object that a member name of the payload stands for.
pub open spec fn section_named(key: Seq<u8>) -> Option<Section> {
    if key == "transaction".spec_bytes() {
        Some(Section::Transaction)
    } else if key == "customer".spec_bytes() {
        Some(Section::Customer)
    } else if key == "merchant".spec_bytes() {
        Some(Section::Merchant)
    } else if key == "terminal".spec_bytes() {
        Some(Section::Terminal)
    } else if key == "last_transaction".spec_bytes() {
        Some(Section::LastTransaction)
    } else {
        None
    }
}

/// The field that a member name of an object stands for.
#[verifier::opaque]
pub open spec fn field_named(section: Section, key: Seq<u8>) -> Option<Field> {
    match section {
        Section::Transaction => if key == "amount".spec_bytes() {
            Some(Field::Amount)
        } else if key == "installments".spec_bytes() {
            Some(Field::Installments)
        } else if key == "requested_at".spec_bytes() {
            Some(Field::RequestedAt)
        } else {
            None
        },
        Section::Customer => if key == "avg_amount".spec_bytes() {
            Some(Field::CustomerAverage)
        } else if key == "tx_count_24h".spec_bytes() {
            Some(Field::TxCount)
        } else if key == "known_merchants".spec_bytes() {
            Some(Field::KnownMerchants)
        } else {
            None
        },
        Section::Merchant => if key == "id".spec_bytes() {
            Some(Field::MerchantId)
        } else if key == "mcc".spec_bytes() {
            Some(Field::Mcc)
        } else if key == "avg_amount".spec_bytes() {
            Some(Field::MerchantAverage)
        } else {
            None
        },
        Section::Terminal => if key == "is_online".spec_bytes() {
            Some(Field::IsOnline)
        } else if key == "card_present".spec_bytes() {
            Some(Field::CardPresent)
        } else if key == "km_from_home".spec_bytes() {
            Some(Field::KmFromHome)
        } else {
            None
        },
        Section::LastTransaction => if key == "timestamp".spec_bytes() {
            Some(Field::Timestamp)
        } else if key == "km_from_current".spec_bytes() {
            Some(Field::KmFromCurrent)
        } else {
            None
        },
    }
}

/// The hashes of the names in `json[i..end]`, behind those in `known`: whatever stands between a
/// quote and the next one.
pub open spec fn quoted_between(json: Seq<u8>, i: int, end: int, known: Seq<u64>) -> Result<
    Seq<u64>,
    ParseError,
>
    decreases end - i,
{
    let rest = json.subrange(i, end);
    let open = i + bytes::first_index(rest, '"' as u8);
    if i < 0 || i >= end || end > json.len() || open >= end {
        Ok(known)
    } else {
        let close = open + 1 + bytes::first_index(json.subrange(open + 1, end), '"' as u8);
        if close >= end {
            Err(ParseError::InvalidFormat)
        } else {
            quoted_between(
                json,
                close + 1,
                end,
                if known.len() < MAX_KNOWN {
                    known.push(helpers::hash_of(json.subrange(open + 1, close)))
                } else {
                    known
                },
            )
        }
    }
}

/// The list of known merchants that starts at `start` and reaches to the next closing bracket.
pub open spec fn known_at(json: Seq<u8>, start: int) -> Result<Seq<u64>, ParseError> {
    if scan::byte_at(json, start, '[' as u8) {
        let end = start + bytes::first_index(json.subrange(start, json.len() as int), ']' as u8);
        if end < json.len() {
            quoted_between(json, start + 1, end, Seq::empty())
        } else {
            Err(ParseError::InvalidFormat)
        }
    } else {
        Err(ParseError::InvalidFormat)
    }
}

/// What has been read so far.
pub struct Progress {
    pub out: Seq<i16>,
    pub amount: Binary64,
    pub average: Binary64,
    pub merchant: u64,
    pub known: Seq<u64>,
    pub requested_minute: int,
    pub last_minute: Option<int>,
    pub last_km: Option<Binary64>,
    pub seen: Set<Field>,
    pub seen_last_transaction: bool,
}

impl Progress {
    /// Nothing read yet.
    pub open spec fn start() -> Progress {
        Progress {
            out: Seq::new(16, |i: int| 0i16),
            amount: Binary64 { negative: false, magnitude: 0 },
            average: Binary64 { negative: false, magnitude: 0 },
            merchant: 0,
            known: Seq::empty(),
            requested_minute: 0,
            last_minute: None,
            last_km: None,
            seen: Set::empty(),
            seen_last_transaction: false,
        }
    }

    /// Slot `slot` of the vector is set.
    pub open spec fn put(self, slot: int, value: i16) -> Progress {
        Progress { out: self.out.update(slot, value), ..self }
    }

    /// Field `field` has been read.
    pub open spec fn mark(self, field: Field) -> Progress {
        Progress { seen: self.seen.insert(field), ..self }
    }

    /// A number field takes its value.
    pub open spec fn store_number(self, field: Field, value: Binary64) -> Progress {
        match field {
            Field::Amount => (Progress { amount: value, ..self }).put(
                0,
                helpers::scaled(value, 10_000),
            ).mark(field),
            Field::CustomerAverage => (Progress { average: value, ..self }).mark(field),
            Field::MerchantAverage => self.put(13, helpers::scaled(value, 10_000)).mark(field),
            Field::KmFromHome => self.put(7, helpers::scaled(value, 1000)).mark(field),
            Field::KmFromCurrent => (Progress { last_km: Some(value), ..self }).mark(field),
            _ => self,
        }
    }

    /// An integer field takes its value.
    pub open spec fn store_integer(self, field: Field, value: int) -> Progress {
        match field {
            Field::Installments => self.put(1, helpers::scaled_integer(value, 12)).mark(field),
            Field::TxCount => self.put(8, helpers::scaled_integer(value, 20)).mark(field),
            _ => self,
        }
    }

    /// A flag takes its value.
    pub open spec fn store_flag(self, field: Field, value: bool) -> Progress {
        match field {
            Field::IsOnline => self.put(9, helpers::flag(value)).mark(field),
            Field::CardPresent => self.put(10, helpers::flag(value)).mark(field),
            _ => self,
        }
    }

    /// A point in time takes its value.
    pub open spec fn store_time(self, field: Field, value: helpers::ParsedDateTime) -> Progress {
        match field {
            Field::RequestedAt => (Progress {
                requested_minute: value.epoch_minute as int,
                ..self
            }).put(3, helpers::scaled_integer(value.hour as int, 23)).put(
                4,
                helpers::scaled_integer(value.day_of_week as int, 6),
            ).mark(field),
            Field::Timestamp => (Progress {
                last_minute: Some(value.epoch_minute as int),
                ..self
            }).mark(field),
            _ => self,
        }
    }

    /// A text field takes its value.
    pub open spec fn store_text(self, field: Field, value: Seq<u8>) -> Progress {
        match field {
            Field::MerchantId => (Progress { merchant: helpers::hash_of(value), ..self }).mark(
                field,
            ),
            Field::Mcc => self.put(12, helpers::risk_of(value)).mark(field),
            _ => self,
        }
    }

    /// The list of known merchants takes its value.
    pub open spec fn store_known(self, value: Seq<u64>) -> Progress {
        (Progress { known: value, ..self }).mark(Field::KnownMerchants)
    }

    /// The field takes the value that starts at `at`.
    #[verifier::opaque]
    pub open spec fn store(self, field: Field, json: Seq<u8>, at: int) -> (
        Progress,
        Option<ParseError>,
    ) {
        match field {
            Field::Amount | Field::CustomerAverage | Field::MerchantAverage | Field::KmFromHome
            | Field::KmFromCurrent => match numeral::double_at(json, at) {
                Ok(value) => (self.store_number(field, value), None),
                Err(e) => (self, Some(e)),
            },
            Field::Installments | Field::TxCount => match numeral::int_at(json, at) {
                Ok(value) => (self.store_integer(field, value as int), None),
                Err(e) => (self, Some(e)),
            },
            Field::IsOnline | Field::CardPresent => match numeral::bool_at(json, at) {
                Ok(value) => (self.store_flag(field, value), None),
                Err(e) => (self, Some(e)),
            },
            Field::RequestedAt | Field::Timestamp => match numeral::string_at(json, at) {
                Ok(text) => match helpers::datetime_of(text) {
                    Ok(time) => (self.store_time(field, time), None),
                    Err(e) => (self, Some(e)),
                },
                Err(e) => (self, Some(e)),
            },
            Field::MerchantId | Field::Mcc => match numeral::string_at(json, at) {
                Ok(text) => (self.store_text(field, text), None),
                Err(e) => (self, Some(e)),
            },
            Field::KnownMerchants => match known_at(json, at) {
                Ok(known) => (self.store_known(known), None),
                Err(e) => (self, Some(e)),
            },
        }
    }

    /// The fields without which there is no vector.
    pub open spec fn complete(self) -> bool {
        &&& self.seen.contains(Field::Amount)
        &&& self.seen.contains(Field::Installments)
        &&& self.seen.contains(Field::RequestedAt)
        &&& self.seen.contains(Field::CustomerAverage)
        &&& self.seen.contains(Field::TxCount)
        &&& self.seen.contains(Field::KnownMerchants)
        &&& self.seen.contains(Field::MerchantId)
        &&& self.seen.contains(Field::Mcc)
        &&& self.seen.contains(Field::MerchantAverage)
        &&& self.seen.contains(Field::IsOnline)
        &&& self.seen.contains(Field::CardPresent)
        &&& self.seen.contains(Field::KmFromHome)
        &&& self.seen_last_transaction
    }

    /// The vector, once everything has been read.
    pub open spec fn vector(self) -> Seq<i16> {
        let out = helpers::finished(
            self.out,
            self.amount,
            self.average,
            self.merchant,
            self.known,
        );
        match (self.last_minute, self.last_km) {
            (Some(minute), Some(km)) => out.update(
                5,
                helpers::scaled_integer(self.requested_minute - minute, 1440),
            ).update(6, helpers::scaled(km, 1000)),
            _ => out.update(5, (-SCALE) as i16).update(6, (-SCALE) as i16),
        }
    }

    /// The vector and the verdict, once everything has been read.
    pub open spec fn conclusion(self) -> (Seq<i16>, Result<(), ParseError>) {
        if !self.complete() {
            (self.out, Err(ParseError::MissingField))
        } else if self.last_minute is Some != self.last_km is Some {
            (self.out, Err(ParseError::InvalidFormat))
        } else {
            (self.vector(), Ok(()))
        }
    }
}

/// What stands at a place in an object where a member may start.
pub enum Step {
    /// The object is closed at `at`.
    End { at: int },
    /// A member with its quoted name in `json[from..to]` and the place of its value.
    Member { from: int, to: int, value: int },
    Broken,
}

/// What stands at position `i` of an object.
pub open spec fn step_at(json: Seq<u8>, i: int) -> Step {
    let a = scan::ws_end(json, i);
    if scan::byte_at(json, a, '}' as u8) {
        Step::End { at: a }
    } else {
        match scan::string_end(json, a) {
            Ok(end) => {
                let colon = scan::ws_end(json, end);
                if scan::byte_at(json, colon, ':' as u8) {
                    Step::Member { from: a, to: end, value: scan::ws_end(json, colon + 1) }
                } else {
                    Step::Broken
                }
            },
            Err(_) => Step::Broken,
        }
    }
}

/// Where the next member may start behind a value that ends at `end`: a comma is skipped.
pub open spec fn after_value(json: Seq<u8>, end: int) -> int {
    let a = scan::ws_end(json, end);
    if scan::byte_at(json, a, ',' as u8) {
        a + 1
    } else {
        a
    }
}

pub proof fn lemma_step_at(json: Seq<u8>, i: int)
    requires
        0 <= i <= json.len(),
    ensures
        step_at(json, i) matches Step::End { at } ==> i <= at < json.len(),
        step_at(json, i) matches Step::Member { from, to, value } ==> i <= from && from + 2 <= to
            < value <= json.len(),
{
    scan::lemma_ws_end(json, i);
    let a = scan::ws_end(json, i);
    scan::lemma_string_end(json, a);
    if let Ok(end) = scan::string_end(json, a) {
        scan::lemma_ws_end(json, end);
        let colon = scan::ws_end(json, end);
        if colon < json.len() {
            scan::lemma_ws_end(json, colon + 1);
        }
    }
}

pub proof fn lemma_after_value(json: Seq<u8>, end: int)
    requires
        0 <= end <= json.len(),
    ensures
        end <= after_value(json, end) <= json.len(),
{
    scan::lemma_ws_end(json, end);
}

/// The members of an object from `i` on: the progress they make, and where the object ends.
pub open spec fn members(json: Seq<u8>, i: int, section: Section, p: Progress) -> (
    Progress,
    Result<int, ParseError>,
)
    decreases json.len() - i,
{
    if i < 0 || i > json.len() {
        (p, Err(ParseError::InvalidFormat))
    } else {
        match step_at(json, i) {
            Step::End { at } => (p, Ok(at + 1)),
            Step::Broken => (p, Err(ParseError::InvalidFormat)),
            Step::Member { from, to, value } => {
                let (q, error) = match field_named(section, json.subrange(from + 1, to - 1)) {
                    Some(field) => p.store(field, json, value),
                    None => (p, None),
                };
                match error {
                    Some(e) => (q, Err(e)),
                    None => match scan::value_end(json, value) {
                        Err(e) => (q, Err(e)),
                        Ok(end) => {
                            proof {
                                lemma_step_at(json, i);
                                scan::lemma_value_end(json, value);
                                lemma_after_value(json, end);
                            }
                            members(json, after_value(json, end), section, q)
                        },
                    },
                }
            },
        }
    }
}

/// The value of a member of the payload: the progress it makes, and where it ends.
pub open spec fn section_value(json: Seq<u8>, key: Seq<u8>, value: int, p: Progress) -> (
    Progress,
    Result<int, ParseError>,
) {
    match section_named(key) {
        None => (p, scan::value_end(json, value)),
        Some(Section::LastTransaction) => {
            let q = Progress { seen_last_transaction: true, ..p };
            if scan::byte_at(json, value, 'n' as u8) {
                (q, scan::value_end(json, value))
            } else if scan::byte_at(json, value, '{' as u8) {
                members(json, value + 1, Section::LastTransaction, q)
            } else {
                (q, Err(ParseError::InvalidFormat))
            }
        },
        Some(section) => if scan::byte_at(json, value, '{' as u8) {
            members(json, value + 1, section, p)
        } else {
            (p, Err(ParseError::InvalidFormat))
        },
    }
}

pub proof fn lemma_members(json: Seq<u8>, i: int, section: Section, p: Progress)
    requires
        0 <= i <= json.len(),
    ensures
        members(json, i, section, p).1 matches Ok(end) ==> i <= end <= json.len(),
    decreases json.len() - i,
{
    lemma_step_at(json, i);
    if let Step::Member { from, to, value } = step_at(json, i) {
        let (q, error) = match field_named(section, json.subrange(from + 1, to - 1)) {
            Some(field) => p.store(field, json, value),
            None => (p, None),
        };
        if error is None {
            scan::lemma_value_end(json, value);
            if let Ok(end) = scan::value_end(json, value) {
                lemma_after_value(json, end);
                lemma_members(json, after_value(json, end), section, q);
            }
        }
    }
}

pub proof fn lemma_section_value(json: Seq<u8>, key: Seq<u8>, value: int, p: Progress)
    requires
        0 <= value <= json.len(),
    ensures
        section_value(json, key, value, p).1 matches Ok(end) ==> value <= end <= json.len(),
{
    scan::lemma_value_end(json, value);
    if value < json.len() {
        let q = Progress { seen_last_transaction: true, ..p };
        lemma_members(json, value + 1, Section::LastTransaction, q);
        if let Some(section) = section_named(key) {
            lemma_members(json, value + 1, section, p);
        }
    }
}

/// The members of the payload from `i` on. What stands behind the payload is not looked at.
pub open spec fn sections(json: Seq<u8>, i: int, p: Progress) -> (Progress, Option<ParseError>)
    decreases json.len() - i,
{
    if i < 0 || i > json.len() {
        (p, Some(ParseError::InvalidFormat))
    } else {
        match step_at(json, i) {
            Step::End { at } => (p, None),
            Step::Broken => (p, Some(ParseError::InvalidFormat)),
            Step::Member { from, to, value } => {
                let key = json.subrange(from + 1, to - 1);
                let (q, result) = section_value(json, key, value, p);
                match result {
                    Err(e) => (q, Some(e)),
                    Ok(end) => {
                        proof {
                            lemma_step_at(json, i);
                            lemma_section_value(json, key, value, p);
                            lemma_after_value(json, end);
                        }
                        sections(json, after_value(json, end), q)
                    },
                }
            },
        }
    }
}

/// The vector and the verdict for a payload.
pub open spec fn single_pass_outcome(json: Seq<u8>) -> (Seq<i16>, Result<(), ParseError>) {
    let p = Progress::start();
    let a = scan::ws_end(json, 0);
    if scan::byte_at(json, a, '{' as u8) {
        let (q, error) = sections(json, a + 1, p);
        match error {
            Some(e) => (q.out, Err(e)),
            None => q.conclusion(),
        }
    } else {
        (p.out, Err(ParseError::InvalidFormat))
    }
}

/// The place of a field in a table of fields.
spec fn place(field: Field) -> int {
    match field {
        Field::Amount => 0,
        Field::Installments => 1,
        Field::RequestedAt => 2,
        Field::CustomerAverage => 3,
        Field::TxCount => 4,
        Field::KnownMerchants => 5,
        Field::MerchantId => 6,
        Field::Mcc => 7,
        Field::MerchantAverage => 8,
        Field::IsOnline => 9,
        Field::CardPresent => 10,
        Field::KmFromHome => 11,
        Field::Timestamp => 12,
        Field::KmFromCurrent => 13,
    }
}

fn place_of(field: Field) -> (r: usize)
    ensures
        r == place(field),
        r < 14,
{
    match field {
        Field::Amount => 0,
        Field::Installments => 1,
        Field::RequestedAt => 2,
        Field::CustomerAverage => 3,
        Field::TxCount => 4,
        Field::KnownMerchants => 5,
        Field::MerchantId => 6,
        Field::Mcc => 7,
        Field::MerchantAverage => 8,
        Field::IsOnline => 9,
        Field::CardPresent => 10,
        Field::KmFromHome => 11,
        Field::Timestamp => 12,
        Field::KmFromCurrent => 13,
    }
}

/// What has been read so far.
struct Fields {
    out: QueryVector,
    amount: Binary64,
    average: Binary64,
    merchant: u64,
    known: Vec<u64>,
    requested_minute: i64,
    last_minute: Option<i64>,
    last_km: Option<Binary64>,
    seen: [bool; 14],
    seen_last_transaction: bool,
}

impl Fields {
    spec fn progress(self) -> Progress {
        Progress {
            out: self.out@,
            amount: self.amount,
            average: self.average,
            merchant: self.merchant,
            known: self.known@,
            requested_minute: self.requested_minute as int,
            last_minute: match self.last_minute {
                Some(minute) => Some(minute as int),
                None => None,
            },
            last_km: self.last_km,
            seen: Set::new(|f: Field| self.seen@[place(f)]),
            seen_last_transaction: self.seen_last_transaction,
        }
    }

    spec fn wf(self) -> bool {
        &&& self.amount.wf()
        &&& self.average.wf()
        &&& -0x1000_0000_0000 <= self.requested_minute <= 0x1000_0000_0000
        &&& self.last_minute matches Some(minute) ==> -0x1000_0000_0000 <= minute
            <= 0x1000_0000_0000
        &&& self.last_km matches Some(km) ==> km.wf()
    }

    fn new() -> (r: Self)
        ensures
            r.wf(),
            r.progress() == Progress::start(),
    {
        let zero = Binary64 { negative: false, magnitude: 0 };
        let r = Fields {
            out: [0i16; PACKED_DIMS],
            amount: zero,
            average: zero,
            merchant: 0,
            known: Vec::new(),
            requested_minute: 0,
            last_minute: None,
            last_km: None,
            seen: [false; 14],
            seen_last_transaction: false,
        };
        proof {
            assert(r.progress().out =~= Progress::start().out);
            assert(r.progress().known =~= Progress::start().known);
            assert(r.progress().seen =~= Progress::start().seen);
        }
        r
    }

    fn put(&mut self, slot: usize, value: i16)
        requires
            old(self).wf(),
            slot < 16,
        ensures
            final(self).wf(),
            final(self).progress() == old(self).progress().put(slot as int, value),
    {
        self.out[slot] = value;
    }

    fn mark(&mut self, field: Field)
        requires
            old(self).wf(),
        ensures
            final(self).wf(),
            final(self).progress() == old(self).progress().mark(field),
    {
        self.seen[place_of(field)] = true;
        proof {
            assert(self.progress().seen =~= old(self).progress().seen.insert(field));
        }
    }

    fn has(&self, field: Field) -> (r: bool)
        ensures
            r == self.progress().seen.contains(field),
    {
        self.seen[place_of(field)]
    }

    fn store_number(&mut self, field: Field, value: Binary64)
        requires
            old(self).wf(),
            value.wf(),
        ensures
            final(self).wf(),
            final(self).progress() == old(self).progress().store_number(field, value),
    {
        match field {
            Field::Amount => {
                self.amount = value;
                self.put(0, helpers::scale_down(value, 10_000));
                self.mark(field);
            },
            Field::CustomerAverage => {
                self.average = value;
                self.mark(field);
            },
            Field::MerchantAverage => {
                self.put(13, helpers::scale_down(value, 10_000));
                self.mark(field);
            },
            Field::KmFromHome => {
                self.put(7, helpers::scale_down(value, 1000));
                self.mark(field);
            },
            Field::KmFromCurrent => {
                self.last_km = Some(value);
                self.mark(field);
            },
            _ => {},
        }
    }

    fn store_integer(&mut self, field: Field, value: i32)
        requires
            old(self).wf(),
        ensures
            final(self).wf(),
            final(self).progress() == old(self).progress().store_integer(field, value as int),
    {
        match field {
            Field::Installments => {
                self.put(1, helpers::scale_down_integer(value as i64, 12));
                self.mark(field);
            },
            Field::TxCount => {
                self.put(8, helpers::scale_down_integer(value as i64, 20));
                self.mark(field);
            },
            _ => {},
        }
    }

    fn store_flag(&mut self, field: Field, value: bool)
        requires
            old(self).wf(),
        ensures
            final(self).wf(),
            final(self).progress() == old(self).progress().store_flag(field, value),
    {
        match field {
            Field::IsOnline => {
                self.put(9, helpers::scale_flag(value));
                self.mark(field);
            },
            Field::CardPresent => {
                self.put(10, helpers::scale_flag(value));
                self.mark(field);
            },
            _ => {},
        }
    }

    fn store_time(&mut self, field: Field, value: helpers::ParsedDateTime)
        requires
            old(self).wf(),
            -0x1000_0000_0000 <= value.epoch_minute <= 0x1000_0000_0000,
        ensures
            final(self).wf(),
            final(self).progress() == old(self).progress().store_time(field, value),
    {
        match field {
            Field::RequestedAt => {
                self.requested_minute = value.epoch_minute;
                self.put(3, helpers::scale_down_integer(value.hour as i64, 23));
                self.put(4, helpers::scale_down_integer(value.day_of_week as i64, 6));
                self.mark(field);
            },
            Field::Timestamp => {
                self.last_minute = Some(value.epoch_minute);
                self.mark(field);
            },
            _ => {},
        }
    }

    fn store_text(&mut self, field: Field, value: &[u8])
        requires
            old(self).wf(),
        ensures
            final(self).wf(),
            final(self).progress() == old(self).progress().store_text(field, value@),
    {
        match field {
            Field::MerchantId => {
                self.merchant = helpers::hash_bytes(value);
                self.mark(field);
            },
            Field::Mcc => {
                self.put(12, helpers::scale_risk(value));
                self.mark(field);
            },
            _ => {},
        }
    }

    fn store(&mut self, field: Field, json: &[u8], at: usize) -> (r: Result<(), ParseError>)
        requires
            old(self).wf(),
            at <= json@.len(),
        ensures
            final(self).wf(),
            final(self).progress() == old(self).progress().store(field, json@, at as int).0,
            old(self).progress().store(field, json@, at as int).1 == (match r {
                Ok(_) => None::<ParseError>,
                Err(e) => Some(e),
            }),
    {
        proof {
            reveal(Progress::store);
        }
        match field {
            Field::Amount | Field::CustomerAverage | Field::MerchantAverage | Field::KmFromHome
            | Field::KmFromCurrent => match numeral::read_double_at(json, at) {
                Ok(value) => {
                    self.store_number(field, value);
                    Ok(())
                },
                Err(e) => Err(e),
            },
            Field::Installments | Field::TxCount => match numeral::read_int_at(json, at) {
                Ok(value) => {
                    self.store_integer(field, value);
                    Ok(())
                },
                Err(e) => Err(e),
            },
            Field::IsOnline | Field::CardPresent => match numeral::read_bool_at(json, at) {
                Ok(value) => {
                    self.store_flag(field, value);
                    Ok(())
                },
                Err(e) => Err(e),
            },
            Field::RequestedAt | Field::Timestamp => match numeral::read_string_at(json, at) {
                Ok(text) => match helpers::parse_datetime(text) {
                    Ok(time) => {
                        self.store_time(field, time);
                        Ok(())
                    },
                    Err(e) => Err(e),
                },
                Err(e) => Err(e),
            },
            Field::MerchantId | Field::Mcc => match numeral::read_string_at(json, at) {
                Ok(text) => {
                    self.store_text(field, text);
                    Ok(())
                },
                Err(e) => Err(e),
            },
            Field::KnownMerchants => match read_known_merchants_at(json, at) {
                Ok(known) => {
                    self.known = known;
                    self.mark(Field::KnownMerchants);
                    Ok(())
                },
                Err(e) => Err(e),
            },
        }
    }

    fn complete(&self) -> (r: bool)
        ensures
            r == self.progress().complete(),
    {
        self.has(Field::Amount) && self.has(Field::Installments) && self.has(Field::RequestedAt)
            && self.has(Field::CustomerAverage) && self.has(Field::TxCount) && self.has(
            Field::KnownMerchants,
        ) && self.has(Field::MerchantId) && self.has(Field::Mcc) && self.has(Field::MerchantAverage)
            && self.has(Field::IsOnline) && self.has(Field::CardPresent) && self.has(
            Field::KmFromHome,
        ) && self.seen_last_transaction
    }

    fn conclude(&mut self) -> (r: Result<(), ParseError>)
        requires
            old(self).wf(),
        ensures
            (final(self).out@, r) == old(self).progress().conclusion(),
    {
        if !self.complete() {
            return Err(ParseError::MissingField);
        }
        if self.last_minute.is_some() != self.last_km.is_some() {
            return Err(ParseError::InvalidFormat);
        }
        let mut out: QueryVector = self.out;
        helpers::finish_vector(&mut out, self.amount, self.average, self.merchant, &self.known);
        match (self.last_minute, self.last_km) {
            (Some(minute), Some(km)) => {
                out[5] = helpers::scale_down_integer(self.requested_minute - minute, 1440);
                out[6] = helpers::scale_down(km, 1000);
            },
            _ => {
                out[5] = -SCALE;
                out[6] = -SCALE;
            },
        }
        self.out = out;
        Ok(())
    }
}

/// Reads the list of known merchants that starts at `start`.
fn read_known_merchants_at(json: &[u8], start: usize) -> (r: Result<Vec<u64>, ParseError>)
    requires
        start <= json@.len(),
    ensures
        r is Ok <==> known_at(json@, start as int) is Ok,
        r matches Ok(known) ==> known_at(json@, start as int) == Ok::<Seq<u64>, ParseError>(
            known@,
        ),
        r matches Err(e) ==> known_at(json@, start as int) == Err::<Seq<u64>, ParseError>(e),
{
    if !scan::is_byte(json, start, 91) {
        return Err(ParseError::InvalidFormat);
    }
    let length: usize = bytes::find_byte(&json[start..json.len()], 93);
    let end: usize = start + length;
    if end >= json.len() {
        return Err(ParseError::InvalidFormat);
    }
    let mut known: Vec<u64> = Vec::new();
    proof {
        assert(json@[start as int] != 93);
        bytes::lemma_first_index(json@.subrange(start as int, json@.len() as int), 93);
        assert(json@.subrange(start as int, json@.len() as int)[0] == json@[start as int]);
    }
    let mut i: usize = start + 1;
    while i < end
        invariant
            start < i <= end < json@.len(),
            quoted_between(json@, i as int, end as int, known@) == known_at(json@, start as int),
        decreases end - i,
    {
        let rest = &json[i..end];
        let open: usize = i + bytes::find_byte(rest, 34);
        if open >= end {
            return Ok(known);
        }
        let close: usize = open + 1 + bytes::find_byte(&json[open + 1..end], 34);
        if close >= end {
            return Err(ParseError::InvalidFormat);
        }
        if known.len() < MAX_KNOWN {
            known.push(helpers::hash_bytes(&json[open + 1..close]));
        }
        i = close + 1;
    }
    Ok(known)
}

/// What stands at a place in an object where a member may start.
pub(crate) enum Found {
    End { at: usize },
    Member { from: usize, to: usize, value: usize },
    Broken,
}

impl Found {
    pub(crate) open spec fn step(self) -> Step {
        match self {
            Found::End { at } => Step::End { at: at as int },
            Found::Member { from, to, value } => Step::Member {
                from: from as int,
                to: to as int,
                value: value as int,
            },
            Found::Broken => Step::Broken,
        }
    }
}

pub(crate) fn find_step(json: &[u8], i: usize) -> (r: Found)
    requires
        i <= json@.len(),
    ensures
        r.step() == step_at(json@, i as int),
        r matches Found::End { at } ==> i <= at < json@.len() && at < usize::MAX,
        r matches Found::Member { from, to, value } ==> i <= from && from + 2 <= to < value
            <= json@.len(),
{
    let a: usize = scan::skip_ws(json, i);
    if scan::is_byte(json, a, 125) {
        return Found::End { at: a };
    }
    match scan::skip_string(json, a) {
        Ok(end) => {
            let colon: usize = scan::skip_ws(json, end);
            if scan::is_byte(json, colon, 58) {
                Found::Member { from: a, to: end, value: scan::skip_ws(json, colon + 1) }
            } else {
                Found::Broken
            }
        },
        Err(_) => Found::Broken,
    }
}

pub(crate) fn skip_comma(json: &[u8], end: usize) -> (r: usize)
    requires
        end <= json@.len(),
    ensures
        r == after_value(json@, end as int),
        end <= r <= json@.len(),
{
    let a: usize = scan::skip_ws(json, end);
    if scan::is_byte(json, a, 44) {
        a + 1
    } else {
        a
    }
}

fn section_for(key: &[u8]) -> (r: Option<Section>)
    ensures
        r == section_named(key@),
{
    if bytes::bytes_equal(key, "transaction".as_bytes()) {
        Some(Section::Transaction)
    } else if bytes::bytes_equal(key, "customer".as_bytes()) {
        Some(Section::Customer)
    } else if bytes::bytes_equal(key, "merchant".as_bytes()) {
        Some(Section::Merchant)
    } else if bytes::bytes_equal(key, "terminal".as_bytes()) {
        Some(Section::Terminal)
    } else if bytes::bytes_equal(key, "last_transaction".as_bytes()) {
        Some(Section::LastTransaction)
    } else {
        None
    }
}

fn field_for(section: Section, key: &[u8]) -> (r: Option<Field>)
    ensures
        r == field_named(section, key@),
{
    proof {
        reveal(field_named);
    }
    match section {
        Section::Transaction => if bytes::bytes_equal(key, "amount".as_bytes()) {
            Some(Field::Amount)
        } else if bytes::bytes_equal(key, "installments".as_bytes()) {
            Some(Field::Installments)
        } else if bytes::bytes_equal(key, "requested_at".as_bytes()) {
            Some(Field::RequestedAt)
        } else {
            None
        },
        Section::Customer => if bytes::bytes_equal(key, "avg_amount".as_bytes()) {
            Some(Field::CustomerAverage)
        } else if bytes::bytes_equal(key, "tx_count_24h".as_bytes()) {
            Some(Field::TxCount)
        } else if bytes::bytes_equal(key, "known_merchants".as_bytes()) {
            Some(Field::KnownMerchants)
        } else {
            None
        },
        Section::Merchant => if bytes::bytes_equal(key, "id".as_bytes()) {
            Some(Field::MerchantId)
        } else if bytes::bytes_equal(key, "mcc".as_bytes()) {
            Some(Field::Mcc)
        } else if bytes::bytes_equal(key, "avg_amount".as_bytes()) {
            Some(Field::MerchantAverage)
        } else {
            None
        },
        Section::Terminal => if bytes::bytes_equal(key, "is_online".as_bytes()) {
            Some(Field::IsOnline)
        } else if bytes::bytes_equal(key, "card_present".as_bytes()) {
            Some(Field::CardPresent)
        } else if bytes::bytes_equal(key, "km_from_home".as_bytes()) {
            Some(Field::KmFromHome)
        } else {
            None
        },
        Section::LastTransaction => if bytes::bytes_equal(key, "timestamp".as_bytes()) {
            Some(Field::Timestamp)
        } else if bytes::bytes_equal(key, "km_from_current".as_bytes()) {
            Some(Field::KmFromCurrent)
        } else {
            None
        },
    }
}

/// A position reached, or the error that stopped the way there.
spec fn reached(r: Result<usize, ParseError>) -> Result<int, ParseError> {
    match r {
        Ok(end) => Ok(end as int),
        Err(e) => Err(e),
    }
}

/// Reads the members of an object.
fn read_members(json: &[u8], i: usize, section: Section, fields: &mut Fields) -> (r: Result<
    usize,
    ParseError,
>)
    requires
        i <= json@.len(),
        old(fields).wf(),
    ensures
        final(fields).wf(),
        (final(fields).progress(), reached(r)) == members(
            json@,
            i as int,
            section,
            old(fields).progress(),
        ),
        r matches Ok(end) ==> i <= end <= json@.len(),
{
    let mut j: usize = i;
    loop
        invariant
            i <= j <= json@.len(),
            fields.wf(),
            members(json@, j as int, section, fields.progress()) == members(
                json@,
                i as int,
                section,
                old(fields).progress(),
            ),
        decreases json@.len() - j,
    {
        match find_step(json, j) {
            Found::End { at } => {
                return Ok(at + 1);
            },
            Found::Broken => {
                return Err(ParseError::InvalidFormat);
            },
            Found::Member { from, to, value } => {
                if let Some(field) = field_for(section, &json[from + 1..to - 1]) {
                    if let Err(e) = fields.store(field, json, value) {
                        return Err(e);
                    }
                }
                match scan::skip_value(json, value) {
                    Ok(end) => {
                        j = skip_comma(json, end);
                    },
                    Err(e) => {
                        return Err(e);
                    },
                }
            },
        }
    }
}

/// Reads the value of a member of the payload.
fn read_section(json: &[u8], key: &[u8], value: usize, fields: &mut Fields) -> (r: Result<
    usize,
    ParseError,
>)
    requires
        value <= json@.len(),
        old(fields).wf(),
    ensures
        final(fields).wf(),
        (final(fields).progress(), reached(r)) == section_value(
            json@,
            key@,
            value as int,
            old(fields).progress(),
        ),
        r matches Ok(end) ==> value <= end <= json@.len(),
{
    match section_for(key) {
        None => scan::skip_value(json, value),
        Some(Section::LastTransaction) => {
            fields.seen_last_transaction = true;
            if scan::is_byte(json, value, 110) {
                scan::skip_value(json, value)
            } else if scan::is_byte(json, value, 123) {
                read_members(json, value + 1, Section::LastTransaction, fields)
            } else {
                Err(ParseError::InvalidFormat)
            }
        },
        Some(section) => if scan::is_byte(json, value, 123) {
            read_members(json, value + 1, section, fields)
        } else {
            Err(ParseError::InvalidFormat)
        },
    }
}

/// Reads the members of the payload.
fn read_sections(json: &[u8], i: usize, fields: &mut Fields) -> (r: Result<(), ParseError>)
    requires
        i <= json@.len(),
        old(fields).wf(),
    ensures
        final(fields).wf(),
        (final(fields).progress(), r.err()) == sections(json@, i as int, old(fields).progress()),
{
    let mut j: usize = i;
    loop
        invariant
            i <= j <= json@.len(),
            fields.wf(),
            sections(json@, j as int, fields.progress()) == sections(
                json@,
                i as int,
                old(fields).progress(),
            ),
        decreases json@.len() - j,
    {
        match find_step(json, j) {
            Found::End { .. } => {
                return Ok(());
            },
            Found::Broken => {
                return Err(ParseError::InvalidFormat);
            },
            Found::Member { from, to, value } => {
                match read_section(json, &json[from + 1..to - 1], value, fields) {
                    Ok(end) => {
                        j = skip_comma(json, end);
                    },
                    Err(e) => {
                        return Err(e);
                    },
                }
            },
        }
    }
}

/// Reads a payload in one pass.
pub fn try_parse_single_pass(json: &[u8], out: &mut QueryVector) -> (r: Result<(), ParseError>)
    ensures
        (final(out)@, r) == single_pass_outcome(json@),
{
    let mut fields = Fields::new();
    let a: usize = scan::skip_ws(json, 0);
    if !scan::is_byte(json, a, 123) {
        *out = fields.out;
        return Err(ParseError::InvalidFormat);
    }
    let result: Result<(), ParseError> = match read_sections(json, a + 1, &mut fields) {
        Ok(_) => fields.conclude(),
        Err(e) => Err(e),
    };
    *out = fields.out;
    result
}

} // verus!
