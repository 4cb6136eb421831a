//! The compact form of a payload: no white space, the members in their documented order, no escapes
//! in strings and no exponents in numbers.

use vstd::prelude::*;
use vstd::string::StringSliceAdditionalSpecFns;

use crate::bytes;
use crate::vector::binary64;
use crate::vector::binary64::Binary64;
use crate::vector::helpers;
use crate::vector::numeral;
use crate::vector::scan;
use crate::vector::ParseError;
use crate::QueryVector;
use crate::PACKED_DIMS;
use crate::SCALE;

verus! {

/// How many known merchants are looked at.
pub const MAX_KNOWN: usize = 64;

/// Where the string whose content starts at `i` is closed, if nothing in it is escaped.
pub open spec fn plain_end(json: Seq<u8>, i: int) -> Option<int>
    decreases json.len() - i,
{
    if i < 0 || i >= json.len() || json[i] == '\\' as u8 {
        None
    } else if json[i] == '"' as u8 {
        Some(i)
    } else {
        plain_end(json, i + 1)
    }
}

/// The known merchants from `i` on, behind those in `known`: strings between commas up to the
/// closing bracket. Gives the hashes of the first ones and the position behind the bracket.
pub open spec fn merchants_from(json: Seq<u8>, i: int, known: Seq<u64>) -> Option<(Seq<u64>, int)>
    decreases json.len() - i,
{
    if !scan::byte_at(json, i, '"' as u8) {
        None
    } else {
        proof {
            lemma_plain_end(json, i + 1);
        }
        match plain_end(json, i + 1) {
            None => None,
            Some(close) => {
                let next = if known.len() < MAX_KNOWN {
                    known.push(helpers::hash_of(json.subrange(i + 1, close)))
                } else {
                    known
                };
                if scan::byte_at(json, close + 1, ',' as u8) {
                    merchants_from(json, close + 2, next)
                } else if scan::byte_at(json, close + 1, ']' as u8) {
                    Some((next, close + 2))
                } else {
                    None
                }
            },
        }
    }
}

/// The list of known merchants that starts at `i`.
pub open spec fn merchants_at(json: Seq<u8>, i: int) -> Option<(Seq<u64>, int)> {
    if !scan::byte_at(json, i, '[' as u8) {
        None
    } else if scan::byte_at(json, i + 1, ']' as u8) {
        Some((Seq::empty(), i + 2))
    } else {
        merchants_from(json, i + 1, Seq::empty())
    }
}

/// What has been read so far. Once an error has come up nothing changes any more.
pub struct State {
    pub at: int,
    pub error: Option<ParseError>,
    pub out: Seq<i16>,
    pub amount: Binary64,
    pub average: Binary64,
    pub requested_minute: int,
    pub merchant: u64,
    pub known: Seq<u64>,
}

impl State {
    /// Nothing read yet.
    pub open spec fn start() -> State {
        State {
            at: 0,
            error: None,
            out: Seq::new(16, |i: int| 0i16),
            amount: Binary64 { negative: false, magnitude: 0 },
            average: Binary64 { negative: false, magnitude: 0 },
            requested_minute: 0,
            merchant: 0,
            known: Seq::empty(),
        }
    }

    pub open spec fn fail(self, error: ParseError) -> State {
        State { error: Some(error), ..self }
    }

    /// Slot `slot` of the vector is set.
    pub open spec fn put(self, slot: int, value: i16) -> State {
        State { out: self.out.update(slot, value), ..self }
    }

    /// The text `text` comes next.
    pub open spec fn expect(self, json: Seq<u8>, text: Seq<u8>) -> State {
        if self.error is Some {
            self
        } else if bytes::occurs_at(json, text, self.at) {
            State { at: self.at + text.len(), ..self }
        } else {
            self.fail(ParseError::InvalidFormat)
        }
    }

    /// The content of a string comes next, and its closing quote.
    pub open spec fn text(self, json: Seq<u8>) -> (State, Seq<u8>) {
        if self.error is Some {
            (self, Seq::empty())
        } else {
            match plain_end(json, self.at) {
                Some(close) => (
                    State { at: close + 1, ..self },
                    json.subrange(self.at, close),
                ),
                None => (self.fail(ParseError::InvalidFormat), Seq::empty()),
            }
        }
    }

    /// A number without an exponent comes next.
    pub open spec fn number(self, json: Seq<u8>) -> (State, Binary64) {
        let zero = Binary64 { negative: false, magnitude: 0 };
        if self.error is Some {
            (self, zero)
        } else {
            let end = scan::significand_end(json, self.at);
            match numeral::short_value(json.subrange(self.at, end)) {
                Some(value) => if scan::has_digits(json, self.at) {
                    (State { at: end, ..self }, value)
                } else {
                    (self.fail(ParseError::InvalidValue), zero)
                },
                None => (self.fail(ParseError::InvalidValue), zero),
            }
        }
    }

    /// An integer comes next.
    pub open spec fn integer(self, json: Seq<u8>) -> (State, int) {
        if self.error is Some {
            (self, 0)
        } else {
            match numeral::int_at(json, self.at) {
                Ok(value) => (
                    State {
                        at: scan::digits_end(json, numeral::past_minus(json, self.at)),
                        ..self
                    },
                    value as int,
                ),
                Err(e) => (self.fail(e), 0),
            }
        }
    }

    /// A boolean comes next.
    pub open spec fn boolean(self, json: Seq<u8>) -> (State, bool) {
        if self.error is Some {
            (self, false)
        } else if bytes::occurs_at(json, "true".spec_bytes(), self.at) {
            (State { at: self.at + 4, ..self }, true)
        } else if bytes::occurs_at(json, "false".spec_bytes(), self.at) {
            (State { at: self.at + 5, ..self }, false)
        } else {
            (self.fail(ParseError::InvalidValue), false)
        }
    }

    /// A number comes next; slot `slot` takes it in units of `divisor`.
    pub open spec fn number_slot(self, json: Seq<u8>, slot: int, divisor: nat) -> State {
        let (next, value) = self.number(json);
        if next.error is Some {
            next
        } else {
            next.put(slot, helpers::scaled(value, divisor))
        }
    }

    /// An integer comes next; slot `slot` takes it in units of `divisor`.
    pub open spec fn integer_slot(self, json: Seq<u8>, slot: int, divisor: nat) -> State {
        let (next, value) = self.integer(json);
        if next.error is Some {
            next
        } else {
            next.put(slot, helpers::scaled_integer(value, divisor))
        }
    }

    /// A boolean comes next; slot `slot` takes it.
    pub open spec fn boolean_slot(self, json: Seq<u8>, slot: int) -> State {
        let (next, value) = self.boolean(json);
        if next.error is Some {
            next
        } else {
            next.put(slot, helpers::flag(value))
        }
    }

    /// The amount comes next.
    pub open spec fn take_amount(self, json: Seq<u8>) -> State {
        let (next, value) = self.number(json);
        if next.error is Some {
            next
        } else {
            (State { amount: value, ..next }).put(0, helpers::scaled(value, 10_000))
        }
    }

    /// The customer's average amount comes next.
    pub open spec fn take_average(self, json: Seq<u8>) -> State {
        let (next, value) = self.number(json);
        if next.error is Some {
            next
        } else {
            State { average: value, ..next }
        }
    }

    /// The time of the request comes next, with its closing quote.
    pub open spec fn take_requested_at(self, json: Seq<u8>) -> State {
        let (next, text) = self.text(json);
        if next.error is Some {
            next
        } else {
            match helpers::datetime_of(text) {
                Ok(time) => (State { requested_minute: time.epoch_minute as int, ..next }).put(
                    3,
                    helpers::scaled_integer(time.hour as int, 23),
                ).put(4, helpers::scaled_integer(time.day_of_week as int, 6)),
                Err(e) => next.fail(e),
            }
        }
    }

    /// The time of the last transaction comes next, with its closing quote.
    pub open spec fn take_timestamp(self, json: Seq<u8>) -> State {
        let (next, text) = self.text(json);
        if next.error is Some {
            next
        } else {
            match helpers::datetime_of(text) {
                Ok(time) => next.put(
                    5,
                    helpers::scaled_integer(next.requested_minute - time.epoch_minute, 1440),
                ),
                Err(e) => next.fail(e),
            }
        }
    }

    /// The merchant's name comes next, with its closing quote.
    pub open spec fn take_merchant(self, json: Seq<u8>) -> State {
        let (next, text) = self.text(json);
        if next.error is Some {
            next
        } else {
            State { merchant: helpers::hash_of(text), ..next }
        }
    }

    /// The merchant's category comes next, with its closing quote.
    pub open spec fn take_mcc(self, json: Seq<u8>) -> State {
        let (next, text) = self.text(json);
        if next.error is Some {
            next
        } else {
            next.put(12, helpers::risk_of(text))
        }
    }

    /// The list of known merchants comes next.
    pub open spec fn take_known(self, json: Seq<u8>) -> State {
        if self.error is Some {
            self
        } else {
            match merchants_at(json, self.at) {
                Some((known, end)) => State { at: end, known, ..self },
                None => self.fail(ParseError::InvalidFormat),
            }
        }
    }

    /// The last transaction, or null, comes next, and the end of the payload.
    pub open spec fn take_last_transaction(self, json: Seq<u8>) -> State {
        if self.error is Some {
            self
        } else if bytes::occurs_at(json, "null}".spec_bytes(), self.at) {
            (State { at: self.at + 5, ..self }).put(5, (-SCALE) as i16).put(6, (-SCALE) as i16)
        } else {
            self.expect(json, "{\"timestamp\":\"".spec_bytes()).take_timestamp(json).expect(
                json,
                ",\"km_from_current\":".spec_bytes(),
            ).number_slot(json, 6, 1000).expect(json, "}}".spec_bytes())
        }
    }

    /// Nothing comes next; the vector is finished.
    pub open spec fn finish(self, json: Seq<u8>) -> State {
        if self.error is Some {
            self
        } else if self.at != json.len() {
            self.fail(ParseError::InvalidFormat)
        } else {
            State {
                out: helpers::finished(
                    self.out,
                    self.amount,
                    self.average,
                    self.merchant,
                    self.known,
                ),
                ..self
            }
        }
    }
}

/// The identifier and the transaction.
pub open spec fn after_transaction(json: Seq<u8>) -> State {
    State::start().expect(json, "{\"id\":\"".spec_bytes()).text(json).0.expect(
        json,
        ",\"transaction\":{\"amount\":".spec_bytes(),
    ).take_amount(json).expect(json, ",\"installments\":".spec_bytes()).integer_slot(
        json,
        1,
        12,
    ).expect(json, ",\"requested_at\":\"".spec_bytes()).take_requested_at(json)
}

/// The customer.
pub open spec fn after_customer(json: Seq<u8>, state: State) -> State {
    state.expect(json, "},\"customer\":{\"avg_amount\":".spec_bytes()).take_average(json).expect(
        json,
        ",\"tx_count_24h\":".spec_bytes(),
    ).integer_slot(json, 8, 20).expect(json, ",\"known_merchants\":".spec_bytes()).take_known(json)
}

/// The merchant.
pub open spec fn after_merchant(json: Seq<u8>, state: State) -> State {
    state.expect(json, "},\"merchant\":{\"id\":\"".spec_bytes()).take_merchant(json).expect(
        json,
        ",\"mcc\":\"".spec_bytes(),
    ).take_mcc(json).expect(json, ",\"avg_amount\":".spec_bytes()).number_slot(json, 13, 10_000)
}

/// The terminal.
pub open spec fn after_terminal(json: Seq<u8>, state: State) -> State {
    state.expect(json, "},\"terminal\":{\"is_online\":".spec_bytes()).boolean_slot(json, 9).expect(
        json,
        ",\"card_present\":".spec_bytes(),
    ).boolean_slot(json, 10).expect(json, ",\"km_from_home\":".spec_bytes()).number_slot(
        json,
        7,
        1000,
    )
}

/// The whole payload.
pub open spec fn compact_outcome(json: Seq<u8>) -> State {
    after_terminal(json, after_merchant(json, after_customer(json, after_transaction(json)))).expect(
        json,
        "},\"last_transaction\":".spec_bytes(),
    ).take_last_transaction(json).finish(json)
}

pub proof fn lemma_plain_end(json: Seq<u8>, i: int)
    requires
        0 <= i,
    ensures
        plain_end(json, i) matches Some(close) ==> i <= close < json.len(),
    decreases json.len() - i,
{
    if i < json.len() && json[i] != '\\' as u8 && json[i] != '"' as u8 {
        lemma_plain_end(json, i + 1);
    }
}

/// Finds where a string without escapes is closed.
fn find_plain_end(json: &[u8], i: usize) -> (r: Option<usize>)
    requires
        i <= json@.len(),
    ensures
        r is Some <==> plain_end(json@, i as int) is Some,
        r matches Some(close) ==> plain_end(json@, i as int) == Some(close as int) && i <= close
            < json@.len() && close < usize::MAX,
{
    let mut j: usize = i;
    while j < json.len()
        invariant
            i <= j <= json@.len(),
            plain_end(json@, j as int) == plain_end(json@, i as int),
        decreases json@.len() - j,
    {
        let b: u8 = json[j];
        if b == 34 {
            return Some(j);
        }
        if b == 92 {
            return None;
        }
        j = j + 1;
    }
    None
}

/// The reader of the compact form.
struct Reader<'a> {
    json: &'a [u8],
    at: usize,
    error: Option<ParseError>,
    out: QueryVector,
    amount: Binary64,
    average: Binary64,
    requested_minute: i64,
    merchant: u64,
    known: Vec<u64>,
}

impl<'a> Reader<'a> {
    spec fn state(self) -> State {
        State {
            at: self.at as int,
            error: self.error,
            out: self.out@,
            amount: self.amount,
            average: self.average,
            requested_minute: self.requested_minute as int,
            merchant: self.merchant,
            known: self.known@,
        }
    }

    spec fn wf(self) -> bool {
        &&& self.at <= self.json@.len()
        &&& self.amount.wf()
        &&& self.average.wf()
        &&& -0x1000_0000_0000 <= self.requested_minute <= 0x1000_0000_0000
    }

    fn new(json: &'a [u8]) -> (r: Self)
        ensures
            r.wf(),
            r.json@ == json@,
            r.state() == State::start(),
    {
        let zero = Binary64 { negative: false, magnitude: 0 };
        let out: QueryVector = [0i16; PACKED_DIMS];
        assert(out@ =~= Seq::new(16, |i: int| 0i16));
        Reader {
            json,
            at: 0,
            error: None,
            out,
            amount: zero,
            average: zero,
            requested_minute: 0,
            merchant: 0,
            known: Vec::new(),
        }
    }

    fn fail(&mut self, error: ParseError)
        requires
            old(self).wf(),
        ensures
            final(self).wf(),
            final(self).json == old(self).json,
            final(self).state() == old(self).state().fail(error),
    {
        self.error = Some(error);
    }

    fn put(&mut self, slot: usize, value: i16)
        requires
            old(self).wf(),
            slot < 16,
        ensures
            final(self).wf(),
            final(self).json == old(self).json,
            final(self).state() == old(self).state().put(slot as int, value),
    {
        self.out[slot] = value;
    }

    fn expect(&mut self, text: &str)
        requires
            old(self).wf(),
        ensures
            final(self).wf(),
            final(self).json == old(self).json,
            final(self).state() == old(self).state().expect(old(self).json@, text.spec_bytes()),
    {
        if self.error.is_some() {
            return;
        }
        let wanted = text.as_bytes();
        if bytes::matches_at(self.json, wanted, self.at) {
            self.at = self.at + wanted.len();
        } else {
            self.fail(ParseError::InvalidFormat);
        }
    }

    fn text(&mut self) -> (r: &'a [u8])
        requires
            old(self).wf(),
        ensures
            final(self).wf(),
            final(self).json == old(self).json,
            (final(self).state(), r@) == old(self).state().text(old(self).json@),
    {
        let json = self.json;
        let none: &'a [u8] = &json[0..0];
        assert(none@ =~= Seq::<u8>::empty());
        if self.error.is_some() {
            return none;
        }
        match find_plain_end(json, self.at) {
            Some(close) => {
                let start: usize = self.at;
                self.at = close + 1;
                &json[start..close]
            },
            None => {
                self.fail(ParseError::InvalidFormat);
                none
            },
        }
    }

    fn number(&mut self) -> (r: Binary64)
        requires
            old(self).wf(),
        ensures
            final(self).wf(),
            final(self).json == old(self).json,
            (final(self).state(), r) == old(self).state().number(old(self).json@),
            r.wf(),
    {
        let zero = Binary64 { negative: false, magnitude: 0 };
        if self.error.is_some() {
            return zero;
        }
        let (end, seen_digit) = scan::skip_significand(self.json, self.at);
        if !seen_digit {
            self.fail(ParseError::InvalidValue);
            return zero;
        }
        match numeral::fast_parse_f64(&self.json[self.at..end]) {
            Some(value) => {
                self.at = end;
                value
            },
            None => {
                self.fail(ParseError::InvalidValue);
                zero
            },
        }
    }

    fn integer(&mut self) -> (r: i32)
        requires
            old(self).wf(),
        ensures
            final(self).wf(),
            final(self).json == old(self).json,
            final(self).state() == old(self).state().integer(old(self).json@).0,
            r == old(self).state().integer(old(self).json@).1,
    {
        if self.error.is_some() {
            return 0;
        }
        match numeral::read_int_at(self.json, self.at) {
            Ok(value) => {
                let from: usize = if scan::is_byte(self.json, self.at, 45) {
                    self.at + 1
                } else {
                    self.at
                };
                self.at = scan::skip_digits(self.json, from);
                value
            },
            Err(e) => {
                self.fail(e);
                0
            },
        }
    }

    fn boolean(&mut self) -> (r: bool)
        requires
            old(self).wf(),
        ensures
            final(self).wf(),
            final(self).json == old(self).json,
            (final(self).state(), r) == old(self).state().boolean(old(self).json@),
    {
        if self.error.is_some() {
            return false;
        }
        proof {
            lemma_literal_lengths();
        }
        if bytes::matches_at(self.json, "true".as_bytes(), self.at) {
            self.at = self.at + 4;
            true
        } else if bytes::matches_at(self.json, "false".as_bytes(), self.at) {
            self.at = self.at + 5;
            false
        } else {
            self.fail(ParseError::InvalidValue);
            false
        }
    }

    fn number_slot(&mut self, slot: usize, divisor: u64)
        requires
            old(self).wf(),
            slot < 16,
            divisor > 0,
        ensures
            final(self).wf(),
            final(self).json == old(self).json,
            final(self).state() == old(self).state().number_slot(
                old(self).json@,
                slot as int,
                divisor as nat,
            ),
    {
        let value = self.number();
        if self.error.is_none() {
            self.put(slot, helpers::scale_down(value, divisor));
        }
    }

    fn integer_slot(&mut self, slot: usize, divisor: u64)
        requires
            old(self).wf(),
            slot < 16,
            divisor > 0,
        ensures
            final(self).wf(),
            final(self).json == old(self).json,
            final(self).state() == old(self).state().integer_slot(
                old(self).json@,
                slot as int,
                divisor as nat,
            ),
    {
        let value: i32 = self.integer();
        if self.error.is_none() {
            self.put(slot, helpers::scale_down_integer(value as i64, divisor));
        }
    }

    fn boolean_slot(&mut self, slot: usize)
        requires
            old(self).wf(),
            slot < 16,
        ensures
            final(self).wf(),
            final(self).json == old(self).json,
            final(self).state() == old(self).state().boolean_slot(old(self).json@, slot as int),
    {
        let value: bool = self.boolean();
        if self.error.is_none() {
            self.put(slot, helpers::scale_flag(value));
        }
    }

    fn take_amount(&mut self)
        requires
            old(self).wf(),
        ensures
            final(self).wf(),
            final(self).json == old(self).json,
            final(self).state() == old(self).state().take_amount(old(self).json@),
    {
        let value = self.number();
        if self.error.is_none() {
            self.amount = value;
            self.put(0, helpers::scale_down(value, 10_000));
        }
    }

    fn take_average(&mut self)
        requires
            old(self).wf(),
        ensures
            final(self).wf(),
            final(self).json == old(self).json,
            final(self).state() == old(self).state().take_average(old(self).json@),
    {
        let value = self.number();
        if self.error.is_none() {
            self.average = value;
        }
    }

    fn take_requested_at(&mut self)
        requires
            old(self).wf(),
        ensures
            final(self).wf(),
            final(self).json == old(self).json,
            final(self).state() == old(self).state().take_requested_at(old(self).json@),
    {
        let text = self.text();
        if self.error.is_none() {
            match helpers::parse_datetime(text) {
                Ok(time) => {
                    self.requested_minute = time.epoch_minute;
                    self.put(3, helpers::scale_down_integer(time.hour as i64, 23));
                    self.put(4, helpers::scale_down_integer(time.day_of_week as i64, 6));
                },
                Err(e) => self.fail(e),
            }
        }
    }

    fn take_timestamp(&mut self)
        requires
            old(self).wf(),
        ensures
            final(self).wf(),
            final(self).json == old(self).json,
            final(self).state() == old(self).state().take_timestamp(old(self).json@),
    {
        let text = self.text();
        if self.error.is_none() {
            match helpers::parse_datetime(text) {
                Ok(time) => {
                    let minutes: i64 = self.requested_minute - time.epoch_minute;
                    self.put(5, helpers::scale_down_integer(minutes, 1440));
                },
                Err(e) => self.fail(e),
            }
        }
    }

    fn take_merchant(&mut self)
        requires
            old(self).wf(),
        ensures
            final(self).wf(),
            final(self).json == old(self).json,
            final(self).state() == old(self).state().take_merchant(old(self).json@),
    {
        let text = self.text();
        if self.error.is_none() {
            self.merchant = helpers::hash_bytes(text);
        }
    }

    fn take_mcc(&mut self)
        requires
            old(self).wf(),
        ensures
            final(self).wf(),
            final(self).json == old(self).json,
            final(self).state() == old(self).state().take_mcc(old(self).json@),
    {
        let text = self.text();
        if self.error.is_none() {
            self.put(12, helpers::scale_risk(text));
        }
    }

    fn take_known(&mut self)
        requires
            old(self).wf(),
        ensures
            final(self).wf(),
            final(self).json == old(self).json,
            final(self).state() == old(self).state().take_known(old(self).json@),
    {
        if self.error.is_some() {
            return;
        }
        match read_compact_known_merchants(self.json, self.at) {
            Some((known, end)) => {
                self.at = end;
                self.known = known;
            },
            None => self.fail(ParseError::InvalidFormat),
        }
    }

    fn take_last_transaction(&mut self)
        requires
            old(self).wf(),
        ensures
            final(self).wf(),
            final(self).json == old(self).json,
            final(self).state() == old(self).state().take_last_transaction(old(self).json@),
    {
        if self.error.is_some() {
            return;
        }
        proof {
            lemma_literal_lengths();
        }
        if bytes::matches_at(self.json, "null}".as_bytes(), self.at) {
            self.at = self.at + 5;
            self.put(5, -SCALE);
            self.put(6, -SCALE);
        } else {
            self.expect("{\"timestamp\":\"");
            self.take_timestamp();
            self.expect(",\"km_from_current\":");
            self.number_slot(6, 1000);
            self.expect("}}");
        }
    }

    fn finish(&mut self)
        requires
            old(self).wf(),
        ensures
            final(self).wf(),
            final(self).json == old(self).json,
            final(self).state() == old(self).state().finish(old(self).json@),
    {
        if self.error.is_some() {
            return;
        }
        if self.at != self.json.len() {
            self.fail(ParseError::InvalidFormat);
            return;
        }
        let mut out: QueryVector = self.out;
        helpers::finish_vector(&mut out, self.amount, self.average, self.merchant, &self.known);
        self.out = out;
    }
}

proof fn lemma_literal_lengths()
    ensures
        "true".spec_bytes().len() == 4,
        "false".spec_bytes().len() == 5,
        "null}".spec_bytes().len() == 5,
{
    reveal_strlit("true");
    reveal_strlit("false");
    reveal_strlit("null}");
    assert(vstd::string::is_ascii("true"));
    assert(vstd::string::is_ascii("false"));
    assert(vstd::string::is_ascii("null}"));
}

/// Reads the list of known merchants that starts at `i`.
fn read_compact_known_merchants(json: &[u8], i: usize) -> (r: Option<(Vec<u64>, usize)>)
    requires
        i <= json@.len(),
    ensures
        r is Some <==> merchants_at(json@, i as int) is Some,
        r matches Some((known, end)) ==> merchants_at(json@, i as int) == Some(
            (known@, end as int),
        ) && end <= json@.len(),
{
    if !scan::is_byte(json, i, 91) {
        return None;
    }
    let mut known: Vec<u64> = Vec::new();
    if scan::is_byte(json, i + 1, 93) {
        return Some((known, i + 2));
    }
    let mut j: usize = i + 1;
    loop
        invariant
            i < j <= json@.len(),
            merchants_from(json@, j as int, known@) == merchants_at(json@, i as int),
        decreases json@.len() - j,
    {
        if !scan::is_byte(json, j, 34) {
            return None;
        }
        let close: usize = match find_plain_end(json, j + 1) {
            Some(close) => close,
            None => return None,
        };
        if known.len() < MAX_KNOWN {
            known.push(helpers::hash_bytes(&json[j + 1..close]));
        }
        if scan::is_byte(json, close + 1, 44) {
            j = close + 2;
        } else if scan::is_byte(json, close + 1, 93) {
            return Some((known, close + 2));
        } else {
            return None;
        }
    }
}

/// Reads a payload in the compact form.
pub fn try_parse_compact_ordered(json: &[u8], out: &mut QueryVector) -> (r: Result<(), ParseError>)
    ensures
        final(out)@ == compact_outcome(json@).out,
        r == (match compact_outcome(json@).error {
            Some(e) => Err::<(), ParseError>(e),
            None => Ok::<(), ParseError>(()),
        }),
{
    let mut reader = Reader::new(json);
    read_transaction(&mut reader);
    read_customer(&mut reader);
    read_merchant(&mut reader);
    read_terminal(&mut reader);
    reader.expect("},\"last_transaction\":");
    reader.take_last_transaction();
    reader.finish();
    *out = reader.out;
    match reader.error {
        Some(e) => Err(e),
        None => Ok(()),
    }
}

fn read_transaction(reader: &mut Reader)
    requires
        old(reader).wf(),
        old(reader).state() == State::start(),
    ensures
        final(reader).wf(),
        final(reader).json == old(reader).json,
        final(reader).state() == after_transaction(old(reader).json@),
{
    reader.expect("{\"id\":\"");
    let _ = reader.text();
    reader.expect(",\"transaction\":{\"amount\":");
    reader.take_amount();
    reader.expect(",\"installments\":");
    reader.integer_slot(1, 12);
    reader.expect(",\"requested_at\":\"");
    reader.take_requested_at();
}

fn read_customer(reader: &mut Reader)
    requires
        old(reader).wf(),
    ensures
        final(reader).wf(),
        final(reader).json == old(reader).json,
        final(reader).state() == after_customer(old(reader).json@, old(reader).state()),
{
    reader.expect("},\"customer\":{\"avg_amount\":");
    reader.take_average();
    reader.expect(",\"tx_count_24h\":");
    reader.integer_slot(8, 20);
    reader.expect(",\"known_merchants\":");
    reader.take_known();
}

fn read_merchant(reader: &mut Reader)
    requires
        old(reader).wf(),
    ensures
        final(reader).wf(),
        final(reader).json == old(reader).json,
        final(reader).state() == after_merchant(old(reader).json@, old(reader).state()),
{
    reader.expect("},\"merchant\":{\"id\":\"");
    reader.take_merchant();
    reader.expect(",\"mcc\":\"");
    reader.take_mcc();
    reader.expect(",\"avg_amount\":");
    reader.number_slot(13, 10_000);
}

fn read_terminal(reader: &mut Reader)
    requires
        old(reader).wf(),
    ensures
        final(reader).wf(),
        final(reader).json == old(reader).json,
        final(reader).state() == after_terminal(old(reader).json@, old(reader).state()),
{
    reader.expect("},\"terminal\":{\"is_online\":");
    reader.boolean_slot(9);
    reader.expect(",\"card_present\":");
    reader.boolean_slot(10);
    reader.expect(",\"km_from_home\":");
    reader.number_slot(7, 1000);
}

} // verus!
