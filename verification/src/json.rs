//! Finding values inside a JSON text.

use vstd::prelude::*;

use crate::text;
use crate::vector::scan;
use crate::vector::serde_fallback;
use crate::vector::single_pass;
use crate::vector::single_pass::Found;

verus! {

/// What `serde_json` says of bytes that it does not take for one JSON value that it can keep.
pub uninterp spec fn json_value_error(text: Seq<u8>) -> Option<Seq<char>>;

/// Calls `serde_json::from_slice` for `serde_json::Value`, and `to_string` on its error. Claimed:
/// whether it succeeds, and what the error says, depends on the bytes alone.
#[verifier::external_body]
pub(crate) fn value_error(text: &[u8]) -> (r: Option<String>)
    ensures
        r is Some <==> json_value_error(text@) is Some,
        r matches Some(message) ==> json_value_error(text@) == Some(message@),
{
    match serde_json::from_slice::<serde_json::Value>(text) {
        Ok(_) => None,
        Err(e) => Some(e.to_string()),
    }
}

/// The bytes are one JSON value.
pub open spec fn is_value(text: Seq<u8>) -> bool {
    json_value_error(text) is None
}

/// Where the elements of an array from `i` on start and end.
pub open spec fn elements(json: Seq<u8>, i: int) -> Seq<(int, int)>
    decreases json.len() - i,
{
    let a = scan::ws_end(json, i);
    if i < 0 || i > json.len() || scan::byte_at(json, a, ']' as u8) {
        Seq::empty()
    } else {
        match scan::value_end(json, a) {
            Ok(end) => {
                proof {
                    scan::lemma_ws_end(json, i);
                    lemma_element(json, a);
                }
                seq![(a, end)] + elements(json, single_pass::after_value(json, end))
            },
            Err(_) => Seq::empty(),
        }
    }
}

/// A value takes at least one byte.
pub proof fn lemma_element(json: Seq<u8>, a: int)
    requires
        0 <= a <= json.len(),
    ensures
        scan::value_end(json, a) matches Ok(end) ==> a < end <= json.len() && end
            <= single_pass::after_value(json, end) <= json.len(),
{
    scan::lemma_value_end(json, a);
    if let Ok(end) = scan::value_end(json, a) {
        single_pass::lemma_after_value(json, end);
    }
}

/// Where the value of the last member with a name starts and ends, among the members of an object
/// from `i` on.
pub open spec fn member(
    json: Seq<u8>,
    i: int,
    name: Seq<char>,
    found: Option<(int, int)>,
) -> Option<(int, int)>
    decreases json.len() - i,
{
    if i < 0 || i > json.len() {
        found
    } else {
        match single_pass::step_at(json, i) {
            single_pass::Step::Member { from, to, value } => match scan::value_end(json, value) {
                Ok(end) => {
                    proof {
                        single_pass::lemma_step_at(json, i);
                        scan::lemma_value_end(json, value);
                        single_pass::lemma_after_value(json, end);
                    }
                    let next = if serde_fallback::json_string(json.subrange(from, to)) == Some(
                        name,
                    ) {
                        Some((value, end))
                    } else {
                        found
                    };
                    member(json, single_pass::after_value(json, end), name, next)
                },
                Err(_) => found,
            },
            _ => found,
        }
    }
}

/// Where the value of a member of the value at `at` starts and ends, if that is an object with such
/// a member.
pub open spec fn member_of(json: Seq<u8>, at: int, name: Seq<char>) -> Option<(int, int)> {
    if scan::byte_at(json, at, '{' as u8) {
        member(json, at + 1, name, None)
    } else {
        None
    }
}

/// Finds the elements of an array.
pub fn find_elements(json: &[u8], i: usize) -> (r: Vec<(usize, usize)>)
    requires
        i <= json@.len(),
    ensures
        r@.len() == elements(json@, i as int).len(),
        forall|k: int|
            0 <= k < r@.len() ==> (#[trigger] r@[k]).0 == elements(json@, i as int)[k].0 && r@[k].1
                == elements(json@, i as int)[k].1 && r@[k].0 < r@[k].1 <= json@.len(),
{
    let mut r: Vec<(usize, usize)> = Vec::new();
    let mut j: usize = i;
    let ghost all = elements(json@, i as int);
    loop
        invariant
            i <= j <= json@.len(),
            all == elements(json@, i as int),
            all.len() == r@.len() + elements(json@, j as int).len(),
            forall|k: int|
                0 <= k < r@.len() ==> (#[trigger] r@[k]).0 == all[k].0 && r@[k].1 == all[k].1
                    && r@[k].0 < r@[k].1 <= json@.len(),
            forall|k: int|
                #![trigger elements(json@, j as int)[k]]
                0 <= k < elements(json@, j as int).len() ==> all[r@.len() + k] == elements(
                    json@,
                    j as int,
                )[k],
        decreases json@.len() - j,
    {
        let a: usize = scan::skip_ws(json, j);
        if scan::is_byte(json, a, 93) {
            return r;
        }
        let end: usize = match scan::skip_value(json, a) {
            Ok(end) => end,
            Err(_) => {
                return r;
            },
        };
        proof {
            lemma_element(json@, a as int);
        }
        let ghost here = elements(json@, j as int);
        let ghost rest = elements(json@, single_pass::after_value(json@, end as int));
        assert(here == seq![(a as int, end as int)] + rest);
        assert(here[0] == (a as int, end as int));
        let ghost before = r@;
        r.push((a, end));
        let next: usize = single_pass::skip_comma(json, end);
        proof {
            assert forall|k: int|
                #![trigger elements(json@, next as int)[k]]
                0 <= k < rest.len() implies all[r@.len() + k] == rest[k] by {
                assert(here[k + 1] == rest[k]);
                assert(all[before.len() + (k + 1)] == here[k + 1]);
            }
            assert(all[before.len() as int] == here[0]);
        }
        j = next;
    }
}

/// Finds the value of a member of the value at `at`.
pub fn find_member(json: &[u8], at: usize, name: &str) -> (r: Option<(usize, usize)>)
    requires
        at <= json@.len(),
    ensures
        r is Some <==> member_of(json@, at as int, name@) is Some,
        r matches Some((from, to)) ==> member_of(json@, at as int, name@) == Some(
            (from as int, to as int),
        ) && from <= to <= json@.len(),
{
    if !scan::is_byte(json, at, 123) {
        return None;
    }
    let mut found: Option<(usize, usize)> = None;
    let mut j: usize = at + 1;
    loop
        invariant
            at < j <= json@.len(),
            scan::byte_at(json@, at as int, '{' as u8),
            found matches Some((from, to)) ==> from <= to <= json@.len(),
            member(json@, at + 1, name@, None) == member(json@, j as int, name@, place_of(found)),
        decreases json@.len() - j,
    {
        match single_pass::find_step(json, j) {
            Found::Member { from, to, value } => {
                let end: usize = match scan::skip_value(json, value) {
                    Ok(end) => end,
                    Err(_) => {
                        return found;
                    },
                };
                let matched: bool = match serde_fallback::decode_string(&json[from..to]) {
                    Some(key) => text::same_text(key.as_str(), name),
                    None => false,
                };
                if matched {
                    found = Some((value, end));
                }
                j = single_pass::skip_comma(json, end);
            },
            Found::End { .. } => {
                return found;
            },
            Found::Broken => {
                return found;
            },
        }
    }
}

spec fn place_of(found: Option<(usize, usize)>) -> Option<(int, int)> {
    match found {
        Some((from, to)) => Some((from as int, to as int)),
        None => None,
    }
}

/// White space alone stands from `from` to `to`.
pub open spec fn spaces(json: Seq<u8>, from: int, to: int) -> bool {
    &&& 0 <= from <= to <= json.len()
    &&& forall|k: int|
        from <= k < to ==> (#[trigger] json[k] == 32 || json[k] == 9 || json[k] == 10 || json[k]
            == 13)
}

/// Something other than white space stands at `at`.
pub open spec fn solid(json: Seq<u8>, at: int) -> bool {
    0 <= at < json.len() && json[at] != 32 && json[at] != 9 && json[at] != 10 && json[at] != 13
}

proof fn lemma_spaces(json: Seq<u8>, from: int, to: int)
    requires
        spaces(json, from, to),
        solid(json, to),
    ensures
        scan::ws_end(json, from) == to,
    decreases to - from,
{
    if from < to {
        lemma_spaces(json, from + 1, to);
    }
}

/// From `i` on there are values at these places, with commas between them and white space anywhere
/// around, and then, at `close`, a byte that closes them.
pub open spec fn lined_up(
    json: Seq<u8>,
    i: int,
    places: Seq<(int, int)>,
    commas: Seq<int>,
    close: int,
    closing: u8,
) -> bool {
    let n = places.len() as int;
    &&& solid(json, close)
    &&& json[close] == closing
    &&& commas.len() == n
    &&& n == 0 ==> spaces(json, i, close)
    &&& n > 0 ==> spaces(json, i, places[0].0)
    &&& forall|k: int|
        #![trigger places[k]]
        0 <= k < n ==> {
            let next = if k + 1 < n {
                commas[k]
            } else {
                close
            };
            &&& solid(json, places[k].0)
            &&& json[places[k].0] != closing
            &&& spaces(json, places[k].1, next)
            &&& k + 1 < n ==> solid(json, commas[k]) && json[commas[k]] == 44 && spaces(
                json,
                commas[k] + 1,
                places[k + 1].0,
            )
        }
}

proof fn lemma_lined_up_rest(
    json: Seq<u8>,
    i: int,
    places: Seq<(int, int)>,
    commas: Seq<int>,
    close: int,
    closing: u8,
)
    requires
        lined_up(json, i, places, commas, close, closing),
        places.len() > 0,
        closing != 44,
    ensures
        scan::ws_end(json, i) == places[0].0,
        lined_up(
            json,
            single_pass::after_value(json, places[0].1),
            places.drop_first(),
            commas.drop_first(),
            close,
            closing,
        ),
        0 <= places[0].1 <= json.len(),
{
    let n = places.len() as int;
    let rest = places.drop_first();
    let others = commas.drop_first();
    assert(solid(json, places[0].0));
    lemma_spaces(json, i, places[0].0);
    let next = if 1 < n {
        commas[0]
    } else {
        close
    };
    lemma_spaces(json, places[0].1, next);
    assert forall|k: int|
        #![trigger rest[k]]
        0 <= k < rest.len() implies ({
        let next = if k + 1 < rest.len() {
            others[k]
        } else {
            close
        };
        &&& solid(json, rest[k].0)
        &&& json[rest[k].0] != closing
        &&& spaces(json, rest[k].1, next)
        &&& k + 1 < rest.len() ==> solid(json, others[k]) && json[others[k]] == 44 && spaces(
            json,
            others[k] + 1,
            rest[k + 1].0,
        )
    }) by {
        assert(rest[k] == places[k + 1]);
        if k + 1 < rest.len() {
            assert(rest[k + 1] == places[k + 2]);
            assert(others[k] == commas[k + 1]);
        }
    }
    if n > 1 {
        assert(rest[0] == places[1]);
    }
}

/// The elements of an array are the values that stand in it, in their order, however it is laid out.
pub proof fn law_elements_are_the_values(
    json: Seq<u8>,
    i: int,
    places: Seq<(int, int)>,
    commas: Seq<int>,
    close: int,
)
    requires
        lined_up(json, i, places, commas, close, 93),
        forall|k: int|
            0 <= k < places.len() ==> scan::value_end(json, (#[trigger] places[k]).0) == Ok::<
                int,
                crate::vector::ParseError,
            >(places[k].1),
    ensures
        elements(json, i) == places,
    decreases places.len(),
{
    if places.len() == 0 {
        lemma_spaces(json, i, close);
        assert(elements(json, i) =~= places);
    } else {
        let rest = places.drop_first();
        lemma_lined_up_rest(json, i, places, commas, close, 93);
        assert(scan::value_end(json, places[0].0) == Ok::<int, crate::vector::ParseError>(
            places[0].1,
        ));
        let next = single_pass::after_value(json, places[0].1);
        assert forall|k: int| 0 <= k < rest.len() implies scan::value_end(
            json,
            (#[trigger] rest[k]).0,
        ) == Ok::<int, crate::vector::ParseError>(rest[k].1) by {
            assert(rest[k] == places[k + 1]);
        }
        law_elements_are_the_values(json, next, rest, commas.drop_first(), close);
        assert(seq![places[0]] + rest =~= places);
        assert(elements(json, i) =~= places);
    }
}

/// A member stands at its place: a name in quotes, a colon and a value, with white space around the
/// colon.
pub open spec fn member_stands(
    json: Seq<u8>,
    place: (int, int),
    name_end: int,
    colon: int,
    value: int,
) -> bool {
    &&& scan::string_end(json, place.0) == Ok::<int, crate::vector::ParseError>(name_end)
    &&& spaces(json, name_end, colon)
    &&& solid(json, colon)
    &&& json[colon] == 58
    &&& spaces(json, colon + 1, value)
    &&& solid(json, value)
    &&& scan::value_end(json, value) == Ok::<int, crate::vector::ParseError>(place.1)
}

/// The value of a member is that of the last one that has the name, however the object is laid out.
pub proof fn law_last_member_counts(
    json: Seq<u8>,
    i: int,
    places: Seq<(int, int)>,
    commas: Seq<int>,
    name_ends: Seq<int>,
    colons: Seq<int>,
    values: Seq<int>,
    close: int,
    name: Seq<char>,
    found: Option<(int, int)>,
)
    requires
        lined_up(json, i, places, commas, close, 125),
        name_ends.len() == places.len(),
        colons.len() == places.len(),
        values.len() == places.len(),
        forall|k: int|
            0 <= k < places.len() ==> member_stands(
                json,
                #[trigger] places[k],
                name_ends[k],
                colons[k],
                values[k],
            ),
    ensures
        forall|k: int|
            0 <= k < places.len() && serde_fallback::json_string(
                json.subrange((#[trigger] places[k]).0, name_ends[k]),
            ) == Some(name) && (forall|j: int|
                k < j < places.len() ==> serde_fallback::json_string(
                    json.subrange((#[trigger] places[j]).0, name_ends[j]),
                ) != Some(name)) ==> member(json, i, name, found) == Some(
                (values[k], places[k].1),
            ),
        (forall|k: int|
            0 <= k < places.len() ==> serde_fallback::json_string(
                json.subrange((#[trigger] places[k]).0, name_ends[k]),
            ) != Some(name)) ==> member(json, i, name, found) == found,
    decreases places.len(),
{
    if places.len() == 0 {
        lemma_spaces(json, i, close);
    } else {
        let (rest, others) = (places.drop_first(), commas.drop_first());
        let (ends, marks, starts) = (
            name_ends.drop_first(),
            colons.drop_first(),
            values.drop_first(),
        );
        lemma_lined_up_rest(json, i, places, commas, close, 125);
        assert(member_stands(json, places[0], name_ends[0], colons[0], values[0]));
        lemma_spaces(json, name_ends[0], colons[0]);
        lemma_spaces(json, colons[0] + 1, values[0]);
        let mine = serde_fallback::json_string(json.subrange(places[0].0, name_ends[0])) == Some(
            name,
        );
        let kept = if mine {
            Some((values[0], places[0].1))
        } else {
            found
        };
        let next = single_pass::after_value(json, places[0].1);
        assert(single_pass::step_at(json, i) == (single_pass::Step::Member {
            from: places[0].0,
            to: name_ends[0],
            value: values[0],
        }));
        assert(member(json, i, name, found) == member(json, next, name, kept));
        assert forall|k: int| 0 <= k < rest.len() implies member_stands(
            json,
            #[trigger] rest[k],
            ends[k],
            marks[k],
            starts[k],
        ) by {
            assert(rest[k] == places[k + 1]);
        }
        law_last_member_counts(
            json,
            next,
            rest,
            others,
            ends,
            marks,
            starts,
            close,
            name,
            kept,
        );
        assert forall|k: int| 0 <= k < rest.len() implies #[trigger] rest[k] == places[k + 1]
            && ends[k] == name_ends[k + 1] && starts[k] == values[k + 1] by {}
        if (forall|k: int|
            1 <= k < places.len() ==> serde_fallback::json_string(
                json.subrange((#[trigger] places[k]).0, name_ends[k]),
            ) != Some(name)) {
            assert forall|k: int| 0 <= k < rest.len() implies serde_fallback::json_string(
                json.subrange((#[trigger] rest[k]).0, ends[k]),
            ) != Some(name) by {
                assert(rest[k] == places[k + 1]);
            }
            assert(member(json, i, name, found) == kept);
        }
        assert forall|k: int|
            0 <= k < places.len() && serde_fallback::json_string(
                json.subrange((#[trigger] places[k]).0, name_ends[k]),
            ) == Some(name) && (forall|j: int|
                k < j < places.len() ==> serde_fallback::json_string(
                    json.subrange((#[trigger] places[j]).0, name_ends[j]),
                ) != Some(name)) implies member(json, i, name, found) == Some(
            (values[k], places[k].1),
        ) by {
            if k > 0 {
                assert(rest[k - 1] == places[k]);
                assert forall|j: int| k - 1 < j < rest.len() implies serde_fallback::json_string(
                    json.subrange((#[trigger] rest[j]).0, ends[j]),
                ) != Some(name) by {
                    assert(rest[j] == places[j + 1]);
                }
            }
        }
    }
}

} // verus!
