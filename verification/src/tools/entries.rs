//! The entries of a test file.

use vstd::prelude::*;
use vstd::string::StringExecFns;

use crate::json;
use crate::vector::binary64;
use crate::vector::binary64::Binary64;
use crate::vector::scan;
use crate::vector::serde_fallback;
use crate::K;

verus! {

/// The text that `serde_json` writes for the value that it reads from a text.
pub uninterp spec fn json_rewritten(text: Seq<u8>) -> Option<Seq<u8>>;

/// Calls `serde_json::to_vec` on the `serde_json::Value` of a text. Claimed: the result depends on
/// the bytes of the text alone.
#[verifier::external_body]
fn rewrite_json(text: &[u8]) -> (r: Option<Vec<u8>>)
    ensures
        r is Some <==> json_rewritten(text@) is Some,
        r matches Some(v) ==> json_rewritten(text@) == Some(v@),
{
    match serde_json::from_slice::<serde_json::Value>(text) {
        Ok(value) => serde_json::to_vec(&value).ok(),
        Err(_) => None,
    }
}

/// Why a text holds no entries.
#[derive(Clone, Copy, Debug, PartialEq, Eq, Structural)]
pub enum EntriesError {
    /// The text is not JSON.
    NotJson,
    /// The value has no array named `entries`.
    MissingEntries,
}

impl EntriesError {
    /// What the error is called.
    pub open spec fn text(self) -> Seq<char> {
        match self {
            EntriesError::NotJson => "parse json"@,
            EntriesError::MissingEntries => "entries array"@,
        }
    }

    /// What the error is called.
    pub fn message(&self) -> (r: String)
        ensures
            r@ == self.text(),
    {
        match self {
            EntriesError::NotJson => String::from_str("parse json"),
            EntriesError::MissingEntries => String::from_str("entries array"),
        }
    }
}

/// A transaction with the expected verdict.
pub struct Entry {
    /// The body of the request, if there is one.
    pub request: Option<Vec<u8>>,
    /// The expected number of fraudulent neighbours, if it is known.
    pub expected_count: Option<u8>,
    /// Whether the transaction is to be approved, if it is known.
    pub expected_approved: Option<bool>,
}

/// What an entry says.
#[verifier::ext_equal]
pub struct EntryView {
    pub request: Option<Seq<u8>>,
    pub expected_count: Option<u8>,
    pub expected_approved: Option<bool>,
}

impl View for Entry {
    type V = EntryView;

    open spec fn view(&self) -> EntryView {
        EntryView {
            request: match self.request {
                Some(v) => Some(v@),
                None => None,
            },
            expected_count: self.expected_count,
            expected_approved: self.expected_approved,
        }
    }
}

/// The number of fraudulent neighbours that gives a score: the score times the number of neighbours,
/// rounded, if it is a possible number.
pub open spec fn count_of_score(score: Binary64) -> Option<u8> {
    let count = binary64::product(score, binary64::of_integer(K as int)).rounded_to_i16();
    if 0 <= count <= K {
        Some(count as u8)
    } else {
        None
    }
}

/// The number of fraudulent neighbours that gives a score.
pub fn expected_count(score: Binary64) -> (r: Option<u8>)
    requires
        score.wf(),
    ensures
        r == count_of_score(score),
{
    let count: i16 = score.times(Binary64::from_i64(K as i64)).round_to_i16();
    if 0 <= count && count <= K as i16 {
        Some(count as u8)
    } else {
        None
    }
}

/// The text of a member of the value at `at`.
pub open spec fn member_text(json: Seq<u8>, at: int, name: Seq<char>) -> Option<Seq<u8>> {
    match json::member_of(json, at, name) {
        Some((from, to)) => Some(json.subrange(from, to)),
        None => None,
    }
}

/// The entry at `at`.
pub open spec fn entry_at(json: Seq<u8>, at: int) -> EntryView {
    EntryView {
        request: match member_text(json, at, "request"@) {
            Some(text) => json_rewritten(text),
            None => None,
        },
        expected_count: match member_text(json, at, "expected_fraud_score"@) {
            Some(text) => match serde_fallback::json_double(text) {
                Some(score) => count_of_score(score),
                None => None,
            },
            None => None,
        },
        expected_approved: match member_text(json, at, "expected_approved"@) {
            Some(text) => serde_fallback::json_bool(text),
            None => None,
        },
    }
}

/// The entries that a text holds.
pub open spec fn entries_of(json: Seq<u8>) -> Result<Seq<EntryView>, EntriesError> {
    if !json::is_value(json) {
        Err(EntriesError::NotJson)
    } else {
        match json::member_of(json, scan::ws_end(json, 0), "entries"@) {
            Some((from, _)) => if scan::byte_at(json, from, '[' as u8) {
                Ok(json::elements(json, from + 1).map_values(|e: (int, int)| entry_at(json, e.0)))
            } else {
                Err(EntriesError::MissingEntries)
            },
            None => Err(EntriesError::MissingEntries),
        }
    }
}

/// Reads an entry.
fn read_entry(json: &[u8], at: usize) -> (r: Entry)
    requires
        at <= json@.len(),
    ensures
        r@ == entry_at(json@, at as int),
{
    let request = match json::find_member(json, at, "request") {
        Some((from, to)) => rewrite_json(&json[from..to]),
        None => None,
    };
    let expected_count: Option<u8> = match json::find_member(json, at, "expected_fraud_score") {
        Some((from, to)) => match serde_fallback::decode_double(&json[from..to]) {
            Some(score) => expected_count(score),
            None => None,
        },
        None => None,
    };
    let expected_approved = match json::find_member(json, at, "expected_approved") {
        Some((from, to)) => serde_fallback::decode_bool(&json[from..to]),
        None => None,
    };
    Entry { request, expected_count, expected_approved }
}

/// Reads the entries of a test file.
pub fn parse_entries(json: &[u8]) -> (r: Result<Vec<Entry>, EntriesError>)
    ensures
        match r {
            Ok(entries) => entries_of(json@) == Ok::<Seq<EntryView>, EntriesError>(
                entries@.map_values(|e: Entry| e@),
            ),
            Err(e) => entries_of(json@) == Err::<Seq<EntryView>, EntriesError>(e),
        },
{
    if json::value_error(json).is_some() {
        return Err(EntriesError::NotJson);
    }
    let at: usize = scan::skip_ws(json, 0);
    let (from, _) = match json::find_member(json, at, "entries") {
        Some(place) => place,
        None => {
            return Err(EntriesError::MissingEntries);
        },
    };
    if !scan::is_byte(json, from, 91) {
        return Err(EntriesError::MissingEntries);
    }
    let items = json::find_elements(json, from + 1);
    let ghost places = json::elements(json@, from + 1);
    let mut entries: Vec<Entry> = Vec::new();
    let mut i: usize = 0;
    while i < items.len()
        invariant
            i <= items@.len(),
            items@.len() == places.len(),
            forall|k: int|
                0 <= k < items@.len() ==> (#[trigger] items@[k]).0 == places[k].0 && items@[k].0
                    <= json@.len(),
            entries@.len() == i,
            forall|k: int| 0 <= k < i ==> (#[trigger] entries@[k])@ == entry_at(json@, places[k].0),
        decreases items@.len() - i,
    {
        entries.push(read_entry(json, items[i].0));
        i = i + 1;
    }
    proof {
        assert(entries@.map_values(|e: Entry| e@) =~= places.map_values(
            |e: (int, int)| entry_at(json@, e.0),
        ));
    }
    Ok(entries)
}

} // verus!
