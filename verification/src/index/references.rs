//! Labelled references out of a JSON text.

use std::io::Read;

use vstd::prelude::*;
use vstd::string::StrSliceExecFns;
use vstd::string::StringExecFns;
use vstd::utf8;

use crate::index::build::Reference;
use crate::json;
use crate::text;
use crate::vector::binary64::Binary64;
use crate::vector::binary64::INFINITE;
use crate::vector::exact;
use crate::vector::helpers;
use crate::vector::measures;
use crate::vector::scan;
use crate::vector::serde_fallback;
use crate::QueryVector;
use crate::DIMS;
use crate::PACKED_DIMS;
use crate::SCALE;

verus! {

/// Why a text holds no references.
#[derive(Clone, Copy, Debug, PartialEq, Eq, Structural)]
pub enum ReferenceError {
    /// The text is not JSON.
    NotJson,
    /// The value is not an array.
    NotAnArray,
    /// An item has no array named `vector`.
    MissingVector,
    /// A vector has another number of coordinates.
    WrongDims(usize),
    /// A coordinate is not a number.
    NotANumber,
    /// An item has no text named `label`.
    MissingLabel,
}

impl ReferenceError {
    /// What the error is called.
    pub open spec fn text(self) -> Seq<char> {
        match self {
            ReferenceError::NotJson => "JSON parse error"@,
            ReferenceError::NotAnArray => "expected top-level array"@,
            ReferenceError::MissingVector => "missing vector array"@,
            ReferenceError::WrongDims(n) => "expected "@ + text::decimal(DIMS as nat)
                + " dims, got "@ + text::decimal(n as nat),
            ReferenceError::NotANumber => "non-numeric vector value"@,
            ReferenceError::MissingLabel => "missing label"@,
        }
    }

    /// What the error is called.
    pub fn message(&self) -> (r: String)
        ensures
            r@ == self.text(),
    {
        match self {
            ReferenceError::NotJson => String::from_str("JSON parse error"),
            ReferenceError::NotAnArray => String::from_str("expected top-level array"),
            ReferenceError::MissingVector => String::from_str("missing vector array"),
            ReferenceError::WrongDims(n) => {
                let mut s = String::from_str("expected ");
                text::push_decimal(&mut s, DIMS as u64);
                s.append(" dims, got ");
                text::push_decimal(&mut s, *n as u64);
                s
            },
            ReferenceError::NotANumber => String::from_str("non-numeric vector value"),
            ReferenceError::MissingLabel => String::from_str("missing label"),
        }
    }
}

/// The first `n` coordinates of a vector, if they are numbers.
pub open spec fn coordinates_of(json: Seq<u8>, at: Seq<(int, int)>, n: nat) -> Option<Seq<i16>>
    decreases n,
{
    if n == 0 {
        Some(Seq::empty())
    } else {
        match coordinates_of(json, at, (n - 1) as nat) {
            None => None,
            Some(front) => match serde_fallback::json_double(
                json.subrange(at[n - 1].0, at[n - 1].1),
            ) {
                None => None,
                Some(value) => Some(front.push(helpers::quantized(value) as i16)),
            },
        }
    }
}

/// The coordinates and the label of the reference at `at`, or why there is none.
pub open spec fn reference_at(json: Seq<u8>, at: int) -> Result<(Seq<i16>, u8), ReferenceError> {
    match json::member_of(json, at, "vector"@) {
        None => Err(ReferenceError::MissingVector),
        Some((start, _)) => if !scan::byte_at(json, start, '[' as u8) {
            Err(ReferenceError::MissingVector)
        } else {
            let items = json::elements(json, start + 1);
            if items.len() != DIMS {
                Err(ReferenceError::WrongDims(items.len() as usize))
            } else {
                match coordinates_of(json, items, DIMS as nat) {
                    None => Err(ReferenceError::NotANumber),
                    Some(vector) => match json::member_of(json, at, "label"@) {
                        None => Err(ReferenceError::MissingLabel),
                        Some((from, to)) => match serde_fallback::json_string(
                            json.subrange(from, to),
                        ) {
                            None => Err(ReferenceError::MissingLabel),
                            Some(label) => Ok(
                                (vector, if label == "fraud"@ {
                                    1u8
                                } else {
                                    0u8
                                }),
                            ),
                        },
                    },
                }
            }
        },
    }
}

/// The first `n` references, or what is wrong with the first one that is not right.
pub open spec fn references_from(json: Seq<u8>, at: Seq<(int, int)>, n: nat) -> Result<
    Seq<(Seq<i16>, u8)>,
    ReferenceError,
>
    decreases n,
{
    if n == 0 {
        Ok(Seq::empty())
    } else {
        match references_from(json, at, (n - 1) as nat) {
            Err(e) => Err(e),
            Ok(front) => match reference_at(json, at[n - 1].0) {
                Err(e) => Err(e),
                Ok(reference) => Ok(front.push(reference)),
            },
        }
    }
}

/// The references that a text holds.
pub open spec fn references_of(json: Seq<u8>) -> Result<Seq<(Seq<i16>, u8)>, ReferenceError> {
    let a = scan::ws_end(json, 0);
    if !json::is_value(json) {
        Err(ReferenceError::NotJson)
    } else if !scan::byte_at(json, a, '[' as u8) {
        Err(ReferenceError::NotAnArray)
    } else {
        let items = json::elements(json, a + 1);
        references_from(json, items, items.len())
    }
}

/// The references are these, padded with zeros.
pub open spec fn are_references(references: Seq<Reference>, said: Seq<(Seq<i16>, u8)>) -> bool {
    &&& references.len() == said.len()
    &&& forall|k: int|
        0 <= k < references.len() ==> is_reference(#[trigger] references[k], said[k])
}

/// The reference is this one, padded with zeros.
pub open spec fn is_reference(reference: Reference, said: (Seq<i16>, u8)) -> bool {
    &&& reference.label == said.1
    &&& forall|d: int|
        0 <= d < PACKED_DIMS ==> #[trigger] reference.vector@[d] == (if d < DIMS {
            said.0[d]
        } else {
            0
        })
}

/// Reads the coordinates of a vector.
fn read_coordinates(json: &[u8], items: &Vec<(usize, usize)>, at: Ghost<Seq<(int, int)>>) -> (r:
    Option<QueryVector>)
    requires
        items@.len() == DIMS,
        at@.len() == DIMS,
        forall|k: int|
            0 <= k < DIMS ==> (#[trigger] items@[k]).0 == at@[k].0 && items@[k].1 == at@[k].1
                && items@[k].0 < items@[k].1 <= json@.len(),
    ensures
        r is Some <==> coordinates_of(json@, at@, DIMS as nat) is Some,
        r matches Some(vector) ==> {
            let said = coordinates_of(json@, at@, DIMS as nat).unwrap();
            &&& said.len() == DIMS
            &&& forall|d: int|
                0 <= d < PACKED_DIMS ==> #[trigger] vector@[d] == (if d < DIMS {
                    said[d]
                } else {
                    0
                })
        },
{
    let mut vector: QueryVector = [0i16; PACKED_DIMS];
    let mut i: usize = 0;
    while i < DIMS
        invariant
            i <= DIMS,
            items@.len() == DIMS,
            at@.len() == DIMS,
            forall|k: int|
                0 <= k < DIMS ==> (#[trigger] items@[k]).0 == at@[k].0 && items@[k].1 == at@[k].1
                    && items@[k].0 < items@[k].1 <= json@.len(),
            vector@.len() == PACKED_DIMS,
            coordinates_of(json@, at@, i as nat) is Some,
            coordinates_of(json@, at@, i as nat).unwrap().len() == i,
            forall|d: int|
                0 <= d < PACKED_DIMS ==> #[trigger] vector@[d] == (if d < i {
                    coordinates_of(json@, at@, i as nat).unwrap()[d]
                } else {
                    0
                }),
        decreases DIMS - i,
    {
        let (from, to) = items[i];
        match serde_fallback::decode_double(&json[from..to]) {
            Some(value) => {
                let v: i16 = helpers::quantize(value);
                vector[i] = v;
            },
            None => {
                proof {
                    lemma_not_numbers(json@, at@, (i + 1) as nat, DIMS as nat);
                }
                return None;
            },
        }
        i = i + 1;
    }
    Some(vector)
}

proof fn lemma_not_numbers(json: Seq<u8>, at: Seq<(int, int)>, n: nat, m: nat)
    requires
        n <= m,
        coordinates_of(json, at, n) is None,
    ensures
        coordinates_of(json, at, m) is None,
    decreases m,
{
    if n < m {
        lemma_not_numbers(json, at, n, (m - 1) as nat);
    }
}

/// Reads a reference.
fn read_reference(json: &[u8], at: usize) -> (r: Result<Reference, ReferenceError>)
    requires
        at <= json@.len(),
    ensures
        match r {
            Ok(reference) => reference_at(json@, at as int) matches Ok(said) && is_reference(
                reference,
                said,
            ),
            Err(e) => reference_at(json@, at as int) == Err::<(Seq<i16>, u8), ReferenceError>(e),
        },
{
    let (start, _) = match json::find_member(json, at, "vector") {
        Some(place) => place,
        None => {
            return Err(ReferenceError::MissingVector);
        },
    };
    if !scan::is_byte(json, start, 91) {
        return Err(ReferenceError::MissingVector);
    }
    let items = json::find_elements(json, start + 1);
    let ghost places = json::elements(json@, start + 1);
    if items.len() != DIMS {
        return Err(ReferenceError::WrongDims(items.len()));
    }
    let vector = match read_coordinates(json, &items, Ghost(places)) {
        Some(vector) => vector,
        None => {
            return Err(ReferenceError::NotANumber);
        },
    };
    match json::find_member(json, at, "label") {
        Some((from, to)) => {
            match serde_fallback::decode_string(&json[from..to]) {
                Some(label) => {
                    let fraud: bool = text::same_text(label.as_str(), "fraud");
                    Ok(
                        Reference {
                            vector,
                            label: if fraud {
                                1
                            } else {
                                0
                            },
                        },
                    )
                },
                None => Err(ReferenceError::MissingLabel),
            }
        },
        None => Err(ReferenceError::MissingLabel),
    }
}

proof fn lemma_wrong_reference(json: Seq<u8>, at: Seq<(int, int)>, n: nat, m: nat)
    requires
        n <= m,
        references_from(json, at, n) is Err,
    ensures
        references_from(json, at, m) == references_from(json, at, n),
    decreases m,
{
    if n < m {
        lemma_wrong_reference(json, at, n, (m - 1) as nat);
    }
}

/// Reads labelled references from a JSON text: an array of objects with a `vector` of numbers and a
/// `label`, which is `fraud` or anything else.
pub fn parse_references(json: &[u8]) -> (r: Result<Vec<Reference>, ReferenceError>)
    ensures
        match r {
            Ok(references) => references_of(json@) matches Ok(said) && are_references(
                references@,
                said,
            ),
            Err(e) => references_of(json@) == Err::<Seq<(Seq<i16>, u8)>, ReferenceError>(e),
        },
{
    if json::value_error(json).is_some() {
        return Err(ReferenceError::NotJson);
    }
    let a: usize = scan::skip_ws(json, 0);
    if !scan::is_byte(json, a, 91) {
        return Err(ReferenceError::NotAnArray);
    }
    let items = json::find_elements(json, a + 1);
    let ghost places = json::elements(json@, a + 1);
    let mut references: Vec<Reference> = Vec::new();
    let mut i: usize = 0;
    while i < items.len()
        invariant
            i <= items@.len(),
            items@.len() == places.len(),
            forall|k: int|
                0 <= k < items@.len() ==> (#[trigger] items@[k]).0 == places[k].0 && items@[k].1
                    == places[k].1 && items@[k].0 < items@[k].1 <= json@.len(),
            references_of(json@) == references_from(json@, places, places.len()),
            references_from(json@, places, i as nat) is Ok,
            are_references(references@, references_from(json@, places, i as nat)->Ok_0),
        decreases items@.len() - i,
    {
        let ghost before = references@;
        let ghost said = references_from(json@, places, i as nat)->Ok_0;
        match read_reference(json, items[i].0) {
            Ok(reference) => {
                references.push(reference);
                proof {
                    let next = references_from(json@, places, (i + 1) as nat)->Ok_0;
                    assert forall|k: int| 0 <= k < references@.len() implies is_reference(
                        #[trigger] references@[k],
                        next[k],
                    ) by {
                        if k < before.len() {
                            assert(references@[k] == before[k]);
                            assert(next[k] == said[k]);
                        }
                    }
                }
            },
            Err(e) => {
                proof {
                    lemma_wrong_reference(json@, places, (i + 1) as nat, places.len());
                }
                return Err(e);
            },
        }
        i = i + 1;
    }
    Ok(references)
}

/// The text of item `d` of the vector of the reference at `at`.
pub open spec fn item_text(json: Seq<u8>, at: int, d: int) -> Seq<u8> {
    let items = json::elements(json, json::member_of(json, at, "vector"@).unwrap().0 + 1);
    json.subrange(items[d].0, items[d].1)
}

/// The coordinate is the number, on the scale.
pub open spec fn is_coordinate(coordinate: i16, number: Option<Binary64>) -> bool {
    match number {
        None => false,
        Some(value) => if value.magnitude < INFINITE {
            measures::measured(
                coordinate as int,
                value.negative,
                measures::size(value) as int,
                exact::one() as int,
            )
        } else {
            coordinate == if value.magnitude > INFINITE {
                0
            } else if value.negative {
                -SCALE
            } else {
                SCALE as int
            }
        },
    }
}

proof fn lemma_coordinates(json: Seq<u8>, at: Seq<(int, int)>, n: nat, d: int)
    requires
        coordinates_of(json, at, n) is Some,
        0 <= d < n,
    ensures
        coordinates_of(json, at, n).unwrap().len() == n,
        ({
            let number = serde_fallback::json_double(json.subrange(at[d].0, at[d].1));
            let coordinate = coordinates_of(json, at, n).unwrap()[d];
            &&& is_coordinate(coordinate, number)
            &&& coordinate == helpers::quantized(number.unwrap()) as i16
        }),
    decreases n,
{
    let front = coordinates_of(json, at, (n - 1) as nat).unwrap();
    if n > 1 {
        lemma_coordinates(json, at, (n - 1) as nat, if d < n - 1 {
            d
        } else {
            0
        });
    }
    if d == n - 1 {
        let value = serde_fallback::json_double(json.subrange(at[d].0, at[d].1)).unwrap();
        if value.magnitude < INFINITE {
            measures::law_quantized_is_the_number(value);
        } else {
            measures::law_quantized_of_the_infinite(value);
        }
    }
}

/// Every coordinate of a reference is the number that the item of its vector in that place says, on
/// the scale, and there are as many items as dimensions. It is labelled if and only if its label says
/// so.
pub proof fn law_coordinates_are_the_numbers(json: Seq<u8>, at: int)
    requires
        reference_at(json, at) is Ok,
    ensures
        ({
            let (vector, label) = reference_at(json, at)->Ok_0;
            let (from, to) = json::member_of(json, at, "label"@).unwrap();
            &&& vector.len() == DIMS
            &&& json::elements(
                json,
                json::member_of(json, at, "vector"@).unwrap().0 + 1,
            ).len() == DIMS
            &&& forall|d: int|
                0 <= d < DIMS ==> is_coordinate(
                    #[trigger] vector[d],
                    serde_fallback::json_double(item_text(json, at, d)),
                )
            &&& label == 0 || label == 1
            &&& label == 1 <==> serde_fallback::json_string(json.subrange(from, to)) == Some(
                "fraud"@,
            )
        }),
{
    let items = json::elements(json, json::member_of(json, at, "vector"@).unwrap().0 + 1);
    let vector = (reference_at(json, at)->Ok_0).0;
    lemma_coordinates(json, items, DIMS as nat, 0);
    assert forall|d: int| 0 <= d < DIMS implies is_coordinate(
        #[trigger] vector[d],
        serde_fallback::json_double(item_text(json, at, d)),
    ) by {
        lemma_coordinates(json, items, DIMS as nat, d);
    }
}

/// The same number gives the same coordinate, in every place of every reference.
pub proof fn law_same_number_same_coordinate(
    json: Seq<u8>,
    at: int,
    d: int,
    other: Seq<u8>,
    there: int,
    e: int,
)
    requires
        reference_at(json, at) is Ok,
        reference_at(other, there) is Ok,
        0 <= d < DIMS,
        0 <= e < DIMS,
        serde_fallback::json_double(item_text(json, at, d)) == serde_fallback::json_double(
            item_text(other, there, e),
        ),
    ensures
        (reference_at(json, at)->Ok_0).0[d] == (reference_at(other, there)->Ok_0).0[e],
{
    let items = json::elements(json, json::member_of(json, at, "vector"@).unwrap().0 + 1);
    let others = json::elements(other, json::member_of(other, there, "vector"@).unwrap().0 + 1);
    lemma_coordinates(json, items, DIMS as nat, d);
    lemma_coordinates(other, others, DIMS as nat, e);
}

proof fn lemma_references_from(json: Seq<u8>, at: Seq<(int, int)>, n: nat, k: int)
    requires
        references_from(json, at, n) is Ok,
        0 <= k < n,
    ensures
        (references_from(json, at, n)->Ok_0).len() == n,
        reference_at(json, at[k].0) == Ok::<(Seq<i16>, u8), ReferenceError>(
            (references_from(json, at, n)->Ok_0)[k],
        ),
    decreases n,
{
    let before = (n - 1) as nat;
    let front = references_from(json, at, before)->Ok_0;
    assert(references_from(json, at, before) is Ok);
    assert(before == 0 ==> front == Seq::<(Seq<i16>, u8)>::empty());
    if n > 1 {
        lemma_references_from(json, at, (n - 1) as nat, if k < n - 1 {
            k
        } else {
            0
        });
    }
}

/// A text holds as many references as its array has elements, and each is what its element says: every
/// coordinate is the number in that place of its vector, on the scale, and what is behind the last
/// dimension is 0.
pub proof fn law_references_are_what_the_elements_say(json: Seq<u8>, references: Seq<Reference>)
    requires
        references_of(json) is Ok,
        are_references(references, references_of(json)->Ok_0),
    ensures
        ({
            let places = json::elements(json, scan::ws_end(json, 0) + 1);
            &&& references.len() == places.len()
            &&& forall|k: int, d: int|
                #![trigger references[k].vector@[d]]
                0 <= k < places.len() && 0 <= d < PACKED_DIMS ==> if d < DIMS {
                    is_coordinate(
                        references[k].vector@[d],
                        serde_fallback::json_double(item_text(json, places[k].0, d)),
                    )
                } else {
                    references[k].vector@[d] == 0
                }
            &&& forall|k: int|
                #![trigger references[k]]
                0 <= k < places.len() ==> {
                    let (from, to) = json::member_of(json, places[k].0, "label"@).unwrap();
                    references[k].label == (if serde_fallback::json_string(json.subrange(from, to))
                        == Some("fraud"@) {
                        1
                    } else {
                        0int
                    })
                }
        }),
{
    let places = json::elements(json, scan::ws_end(json, 0) + 1);
    let said = references_of(json)->Ok_0;
    if places.len() > 0 {
        lemma_references_from(json, places, places.len(), 0);
    }
    assert forall|k: int, d: int|
        #![trigger references[k].vector@[d]]
        0 <= k < places.len() && 0 <= d < PACKED_DIMS implies if d < DIMS {
        is_coordinate(
            references[k].vector@[d],
            serde_fallback::json_double(item_text(json, places[k].0, d)),
        )
    } else {
        references[k].vector@[d] == 0
    } by {
        lemma_references_from(json, places, places.len(), k);
        law_coordinates_are_the_numbers(json, places[k].0);
        assert(is_reference(references[k], said[k]));
        if d < DIMS {
            assert(references[k].vector@[d] == said[k].0[d]);
        }
    }
    assert forall|k: int|
        #![trigger references[k]]
        0 <= k < places.len() implies ({
        let (from, to) = json::member_of(json, places[k].0, "label"@).unwrap();
        references[k].label == (if serde_fallback::json_string(json.subrange(from, to)) == Some(
            "fraud"@,
        ) {
            1
        } else {
            0int
        })
    }) by {
        lemma_references_from(json, places, places.len(), k);
        law_coordinates_are_the_numbers(json, places[k].0);
        assert(is_reference(references[k], said[k]));
    }
}

/// The bytes that `flate2` unpacks from a gzip stream, or what it says is wrong with the stream.
pub uninterp spec fn gunzipped(data: Seq<u8>) -> Result<Seq<u8>, Seq<char>>;

/// Reads `flate2::read::GzDecoder` to its end, and calls `to_string` on its error. Claimed: the
/// bytes that come out, and what the error says, depend on the bytes that go in alone.
#[verifier::external_body]
fn gunzip(data: &[u8]) -> (r: Result<Vec<u8>, String>)
    ensures
        match r {
            Ok(text) => gunzipped(data@) == Ok::<Seq<u8>, Seq<char>>(text@),
            Err(message) => gunzipped(data@) == Err::<Seq<u8>, Seq<char>>(message@),
        },
{
    let mut text = Vec::new();
    match flate2::read::GzDecoder::new(data).read_to_end(&mut text) {
        Ok(_) => Ok(text),
        Err(e) => Err(e.to_string()),
    }
}

/// Calls `std::str::from_utf8`. Claimed: it succeeds if and only if the bytes are UTF-8.
#[verifier::external_body]
fn is_utf8(bytes: &[u8]) -> (r: bool)
    ensures
        r == utf8::valid_utf8(bytes@),
{
    std::str::from_utf8(bytes).is_ok()
}

/// The name is that of a packed file.
pub open spec fn names_gzip(path: Seq<char>) -> bool {
    path.len() >= 3 && path.skip(path.len() - 3) == ".gz"@
}

/// Tells whether the name is that of a packed file.
fn is_gzip_name(path: &str) -> (r: bool)
    ensures
        r == names_gzip(path@),
{
    let n: usize = path.unicode_len();
    if n < 3 {
        return false;
    }
    let end = path.substring_char(n - 3, n);
    assert(end@ =~= path@.skip(path@.len() - 3));
    text::same_text(end, ".gz")
}

/// The references in a text, or what is wrong with it.
pub open spec fn described(json: Seq<u8>) -> Result<Seq<(Seq<i16>, u8)>, Seq<char>> {
    if !utf8::valid_utf8(json) {
        Err("stream did not contain valid UTF-8"@)
    } else {
        match json::json_value_error(json) {
            Some(message) => Err("JSON parse error: "@ + message),
            None => match references_of(json) {
                Ok(said) => Ok(said),
                Err(e) => Err(e.text()),
            },
        }
    }
}

/// The references in a file, or what is wrong with it. A file whose name ends in `.gz` is unpacked.
pub open spec fn file_references(path: Seq<char>, contents: Seq<u8>) -> Result<
    Seq<(Seq<i16>, u8)>,
    Seq<char>,
> {
    if names_gzip(path) {
        match gunzipped(contents) {
            Ok(json) => described(json),
            Err(message) => Err(message),
        }
    } else {
        described(contents)
    }
}

/// Reads labelled references from a text, and says what is wrong with it.
pub fn describe_references(json: &[u8]) -> (r: Result<Vec<Reference>, String>)
    ensures
        match r {
            Ok(references) => described(json@) matches Ok(said) && are_references(
                references@,
                said,
            ),
            Err(message) => described(json@) == Err::<Seq<(Seq<i16>, u8)>, Seq<char>>(message@),
        },
{
    if !is_utf8(json) {
        return Err(String::from_str("stream did not contain valid UTF-8"));
    }
    match json::value_error(json) {
        Some(e) => {
            let mut message = String::from_str("JSON parse error: ");
            message.append(e.as_str());
            Err(message)
        },
        None => match parse_references(json) {
            Ok(references) => Ok(references),
            Err(e) => Err(e.message()),
        },
    }
}

/// Reads labelled references from the contents of a file with the given name.
pub fn load_references(path: &str, contents: &[u8]) -> (r: Result<Vec<Reference>, String>)
    ensures
        match r {
            Ok(references) => file_references(path@, contents@) matches Ok(said)
                && are_references(references@, said),
            Err(message) => file_references(path@, contents@) == Err::<
                Seq<(Seq<i16>, u8)>,
                Seq<char>,
            >(message@),
        },
{
    if is_gzip_name(path) {
        match gunzip(contents) {
            Ok(json) => describe_references(json.as_slice()),
            Err(message) => Err(message),
        }
    } else {
        describe_references(contents)
    }
}

} // verus!
