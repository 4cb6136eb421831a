//! When two member names are the same.

use vstd::prelude::*;

use crate::bytes;
use crate::vector::serde_fallback::normalized;

verus! {

proof fn lemma_normalized_push(s: Seq<u8>, b: u8)
    ensures
        normalized(s.push(b)) == (if b == 95 || b == 45 {
            normalized(s)
        } else {
            normalized(s).push(bytes::lower(b))
        }),
{
    reveal(Seq::filter);
    let all = s.push(b);
    assert(all.drop_last() =~= s);
    assert(all.last() == b);
    if b == 95 || b == 45 {
        assert(normalized(all) =~= normalized(s));
    } else {
        assert(normalized(all) =~= normalized(s).push(bytes::lower(b)));
    }
}

proof fn lemma_normalized_concat(s: Seq<u8>, t: Seq<u8>)
    ensures
        normalized(s + t) == normalized(s) + normalized(t),
    decreases t.len(),
{
    if t.len() == 0 {
        reveal(Seq::filter);
        assert(s + t =~= s);
        assert(normalized(t) =~= Seq::<u8>::empty());
        assert(normalized(s) + normalized(t) =~= normalized(s));
    } else {
        let (front, b) = (t.drop_last(), t.last());
        lemma_normalized_concat(s, front);
        lemma_normalized_push(s + front, b);
        lemma_normalized_push(front, b);
        assert((s + front).push(b) =~= s + t);
        assert(front.push(b) =~= t);
        assert(normalized(s) + normalized(front).push(bytes::lower(b)) =~= (normalized(s)
            + normalized(front)).push(bytes::lower(b)));
    }
}

proof fn lemma_normalized_one(b: u8)
    ensures
        normalized(seq![b]) == (if b == 95 || b == 45 {
            Seq::<u8>::empty()
        } else {
            seq![bytes::lower(b)]
        }),
{
    lemma_normalized_push(Seq::empty(), b);
    assert(Seq::<u8>::empty().push(b) =~= seq![b]);
    reveal(Seq::filter);
    assert(normalized(Seq::empty()) =~= Seq::<u8>::empty());
}

/// Names are the same with an underscore or a hyphen more or less, wherever it stands.
pub proof fn law_separators_do_not_count(a: Seq<u8>, separator: u8, b: Seq<u8>)
    requires
        separator == 95 || separator == 45,
    ensures
        normalized(a + seq![separator] + b) == normalized(a + b),
{
    lemma_normalized_concat(a + seq![separator], b);
    lemma_normalized_concat(a, seq![separator]);
    lemma_normalized_concat(a, b);
    lemma_normalized_one(separator);
    assert(normalized(a) + Seq::<u8>::empty() =~= normalized(a));
}

/// Names are the same with a capital in place of a small letter.
pub proof fn law_capitals_do_not_count(a: Seq<u8>, capital: u8, b: Seq<u8>)
    requires
        65 <= capital <= 90,
    ensures
        normalized(a + seq![capital] + b) == normalized(a + seq![(capital + 32) as u8] + b),
{
    let small = (capital + 32) as u8;
    lemma_normalized_concat(a + seq![capital], b);
    lemma_normalized_concat(a, seq![capital]);
    lemma_normalized_concat(a + seq![small], b);
    lemma_normalized_concat(a, seq![small]);
    lemma_normalized_one(capital);
    lemma_normalized_one(small);
}

/// Names of small letters and other bytes, without separators, are the same only if they are equal.
pub proof fn law_all_else_counts(s: Seq<u8>)
    requires
        forall|k: int|
            0 <= k < s.len() ==> (#[trigger] s[k]) != 95 && s[k] != 45 && !(65 <= s[k] <= 90),
    ensures
        normalized(s) == s,
    decreases s.len(),
{
    if s.len() == 0 {
        reveal(Seq::filter);
        assert(normalized(s) =~= s);
    } else {
        let (front, b) = (s.drop_last(), s.last());
        assert forall|k: int| 0 <= k < front.len() implies (#[trigger] front[k]) != 95 && front[k]
            != 45 && !(65 <= front[k] <= 90) by {
            assert(front[k] == s[k]);
        }
        law_all_else_counts(front);
        lemma_normalized_push(front, b);
        assert(front.push(b) =~= s);
    }
}

} // verus!
