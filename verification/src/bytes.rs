//! Byte strings: searching, comparing, decimal digits.

use vstd::prelude::*;

verus! {

/// `b` is an ASCII decimal digit.
pub open spec fn is_digit(b: u8) -> bool {
    '0' as u8 <= b <= '9' as u8
}

/// Every byte is an ASCII decimal digit.
pub open spec fn all_digits(s: Seq<u8>) -> bool {
    forall|i: int| 0 <= i < s.len() ==> is_digit(#[trigger] s[i])
}

/// The number that a string of decimal digits spells; 0 for the empty string.
pub open spec fn digits_value(s: Seq<u8>) -> nat
    decreases s.len(),
{
    if s.len() == 0 {
        0
    } else {
        digits_value(s.drop_last()) * 10 + (s.last() - '0' as u8) as nat
    }
}

/// The position of the first `b` in `s`; the length of `s` where there is none.
pub open spec fn first_index(s: Seq<u8>, b: u8) -> nat
    decreases s.len(),
{
    if s.len() == 0 || s[0] == b {
        0
    } else {
        1 + first_index(s.drop_first(), b)
    }
}

/// `part` stands in `s` at position `at`.
pub open spec fn occurs_at(s: Seq<u8>, part: Seq<u8>, at: int) -> bool {
    0 <= at && at + part.len() <= s.len() && s.subrange(at, at + part.len()) == part
}

/// The position of the first `part` in `s` at or behind `from`.
pub open spec fn first_occurrence(s: Seq<u8>, part: Seq<u8>, from: int) -> Option<int>
    decreases s.len() - from,
{
    if from < 0 || from + part.len() > s.len() || from >= s.len() {
        None
    } else if occurs_at(s, part, from) {
        Some(from)
    } else {
        first_occurrence(s, part, from + 1)
    }
}

/// `b` in lower case, if it is an ASCII letter.
pub open spec fn lower(b: u8) -> u8 {
    if 'A' as u8 <= b <= 'Z' as u8 {
        (b + 32) as u8
    } else {
        b
    }
}

/// `s` in lower case.
pub open spec fn lowered(s: Seq<u8>) -> Seq<u8> {
    s.map_values(|b: u8| lower(b))
}

/// What `first_occurrence` finds is an occurrence, and there is none before it.
pub proof fn lemma_first_occurrence(s: Seq<u8>, part: Seq<u8>, from: int)
    requires
        0 <= from,
        part.len() > 0,
    ensures
        first_occurrence(s, part, from) matches Some(i) ==> from <= i && occurs_at(s, part, i)
            && forall|j: int| from <= j < i ==> !occurs_at(s, part, j),
        first_occurrence(s, part, from) is None ==> forall|j: int|
            from <= j ==> !occurs_at(s, part, j),
    decreases s.len() - from,
{
    if from + part.len() <= s.len() && from < s.len() && !occurs_at(s, part, from) {
        lemma_first_occurrence(s, part, from + 1);
    }
}

/// An occurrence before which there is none is the first.
pub proof fn lemma_first_occurrence_is(s: Seq<u8>, part: Seq<u8>, i: int)
    requires
        part.len() > 0,
        occurs_at(s, part, i),
        forall|j: int| 0 <= j < i ==> !occurs_at(s, part, j),
    ensures
        first_occurrence(s, part, 0) == Some(i),
{
    lemma_first_occurrence(s, part, 0);
    match first_occurrence(s, part, 0) {
        Some(f) => {
            if f < i {
                assert(!occurs_at(s, part, f));
            }
            if i < f {
                assert(!occurs_at(s, part, i));
            }
        },
        None => {
            assert(!occurs_at(s, part, i));
        },
    }
}

/// What follows a text does not change where a part is first found in it.
pub proof fn lemma_first_occurrence_in_front(s: Seq<u8>, t: Seq<u8>, part: Seq<u8>)
    requires
        part.len() > 0,
        first_occurrence(s, part, 0) is Some,
    ensures
        first_occurrence(s + t, part, 0) == first_occurrence(s, part, 0),
{
    lemma_first_occurrence(s, part, 0);
    let i = first_occurrence(s, part, 0).unwrap();
    let n = part.len() as int;
    assert((s + t).subrange(i, i + n) =~= s.subrange(i, i + n));
    assert forall|j: int| 0 <= j < i implies !occurs_at(s + t, part, j) by {
        assert((s + t).subrange(j, j + n) =~= s.subrange(j, j + n));
        assert(!occurs_at(s, part, j));
    }
    lemma_first_occurrence_is(s + t, part, i);
}

/// What follows a text does not change where a byte is first found in it.
pub proof fn lemma_first_index_in_front(s: Seq<u8>, t: Seq<u8>, b: u8)
    requires
        first_index(s, b) < s.len(),
    ensures
        first_index(s + t, b) == first_index(s, b),
{
    lemma_first_index(s, b);
    let i = first_index(s, b) as int;
    assert forall|j: int| 0 <= j < i implies (s + t)[j] != b by {
        assert(s[j] != b);
    }
    lemma_first_index_is(s + t, b, i);
}

pub proof fn lemma_first_index(s: Seq<u8>, b: u8)
    ensures
        first_index(s, b) <= s.len(),
        forall|j: int| 0 <= j < first_index(s, b) ==> s[j] != b,
        first_index(s, b) < s.len() ==> s[first_index(s, b) as int] == b,
    decreases s.len(),
{
    if s.len() > 0 && s[0] != b {
        let t = s.drop_first();
        lemma_first_index(t, b);
        assert forall|j: int| 0 <= j < first_index(s, b) implies s[j] != b by {
            if j > 0 {
                assert(t[j - 1] == s[j]);
            }
        }
    }
}

pub proof fn lemma_first_index_is(s: Seq<u8>, b: u8, i: int)
    requires
        0 <= i <= s.len(),
        forall|j: int| 0 <= j < i ==> s[j] != b,
        i < s.len() ==> s[i] == b,
    ensures
        first_index(s, b) == i,
{
    lemma_first_index(s, b);
    let f = first_index(s, b) as int;
    if f < i {
        assert(s[f] != b);
    }
    if f > i {
        assert(s[i] != b);
    }
}

pub proof fn lemma_digits_value_push(s: Seq<u8>, b: u8)
    ensures
        digits_value(s.push(b)) == digits_value(s) * 10 + (b - '0' as u8) as nat,
{
    assert(s.push(b).drop_last() =~= s);
}

/// The position of the first `b` in `s`; the length of `s` where there is none.
pub fn find_byte(s: &[u8], b: u8) -> (r: usize)
    ensures
        r == first_index(s@, b),
        r <= s@.len(),
{
    let mut i: usize = 0;
    while i < s.len() && s[i] != b
        invariant
            i <= s@.len(),
            forall|j: int| 0 <= j < i ==> s@[j] != b,
        decreases s@.len() - i,
    {
        i = i + 1;
    }
    proof {
        lemma_first_index_is(s@, b, i as int);
    }
    i
}

/// Tells whether `s` is made of ASCII decimal digits.
pub fn only_digits(s: &[u8]) -> (r: bool)
    ensures
        r == all_digits(s@),
{
    let mut i: usize = 0;
    while i < s.len()
        invariant
            i <= s@.len(),
            forall|j: int| 0 <= j < i ==> is_digit(#[trigger] s@[j]),
        decreases s@.len() - i,
    {
        if !(48 <= s[i] && s[i] <= 57) {
            assert(!is_digit(s@[i as int]));
            return false;
        }
        i = i + 1;
    }
    true
}

/// Tells whether `a` and `b` are the same bytes.
pub fn bytes_equal(a: &[u8], b: &[u8]) -> (r: bool)
    ensures
        r == (a@ == b@),
{
    if a.len() != b.len() {
        return false;
    }
    let mut i: usize = 0;
    while i < a.len()
        invariant
            i <= a@.len(),
            a@.len() == b@.len(),
            forall|j: int| 0 <= j < i ==> a@[j] == b@[j],
        decreases a@.len() - i,
    {
        if a[i] != b[i] {
            return false;
        }
        i = i + 1;
    }
    assert(a@ =~= b@);
    true
}

/// Tells whether `part` stands in `s` at position `at`.
pub fn matches_at(s: &[u8], part: &[u8], at: usize) -> (r: bool)
    ensures
        r == occurs_at(s@, part@, at as int),
        r ==> at + part@.len() <= usize::MAX,
{
    if at > s.len() || part.len() > s.len() - at {
        return false;
    }
    bytes_equal(&s[at..at + part.len()], part)
}

/// The position of the first `needle` in `haystack`, if it is not empty.
pub fn find_bytes(haystack: &[u8], needle: &[u8]) -> (r: Option<usize>)
    ensures
        needle@.len() == 0 ==> r is None,
        needle@.len() > 0 ==> (r is Some <==> first_occurrence(haystack@, needle@, 0) is Some),
        r matches Some(i) ==> first_occurrence(haystack@, needle@, 0) == Some(i as int) && i
            + needle@.len() <= haystack@.len() && i + needle@.len() <= usize::MAX,
{
    if needle.len() == 0 || haystack.len() < needle.len() {
        return None;
    }
    let mut i: usize = 0;
    while i <= haystack.len() - needle.len()
        invariant
            0 < needle@.len() <= haystack@.len(),
            i <= haystack@.len() - needle@.len() + 1,
            first_occurrence(haystack@, needle@, i as int) == first_occurrence(
                haystack@,
                needle@,
                0,
            ),
        decreases haystack@.len() - i,
    {
        if matches_at(haystack, needle, i) {
            return Some(i);
        }
        i = i + 1;
    }
    None
}

/// `s` in lower case.
pub fn to_lower(s: &[u8]) -> (r: Vec<u8>)
    ensures
        r@ == lowered(s@),
{
    let mut r: Vec<u8> = Vec::new();
    let mut i: usize = 0;
    while i < s.len()
        invariant
            i <= s@.len(),
            r@.len() == i,
            forall|j: int| 0 <= j < i ==> r@[j] == lower(s@[j]),
        decreases s@.len() - i,
    {
        let b: u8 = s[i];
        r.push(
            if 65 <= b && b <= 90 {
                b + 32
            } else {
                b
            },
        );
        i = i + 1;
    }
    assert(r@ =~= lowered(s@));
    r
}

} // verus!
