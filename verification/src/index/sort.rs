//! Sorting numbered entries by a number.

use vstd::prelude::*;

verus! {

/// The entries stand in the order of their first number.
pub open spec fn sorted(entries: Seq<(i64, usize)>) -> bool {
    forall|i: int, j: int| 0 <= i <= j < entries.len() ==> entries[i].0 <= entries[j].0
}

/// The entries with this first number, in the order in which they stand.
pub open spec fn ties(entries: Seq<(i64, usize)>, number: i64) -> Seq<(i64, usize)>
    decreases entries.len(),
{
    if entries.len() == 0 {
        Seq::empty()
    } else if entries.last().0 == number {
        ties(entries.drop_last(), number).push(entries.last())
    } else {
        ties(entries.drop_last(), number)
    }
}

/// Entries with the same first number stand in the same order.
pub open spec fn ties_stay(before: Seq<(i64, usize)>, after: Seq<(i64, usize)>) -> bool {
    forall|number: i64| #[trigger] ties(after, number) == ties(before, number)
}

proof fn lemma_ties_push(s: Seq<(i64, usize)>, entry: (i64, usize), number: i64)
    ensures
        ties(s.push(entry), number) == (if entry.0 == number {
            ties(s, number).push(entry)
        } else {
            ties(s, number)
        }),
{
    assert(s.push(entry).drop_last() =~= s);
}

proof fn lemma_ties_concat(a: Seq<(i64, usize)>, b: Seq<(i64, usize)>, number: i64)
    ensures
        ties(a + b, number) == ties(a, number) + ties(b, number),
    decreases b.len(),
{
    if b.len() == 0 {
        assert(a + b =~= a);
        assert(ties(a, number) + ties(b, number) =~= ties(a, number));
    } else {
        assert((a + b).drop_last() =~= a + b.drop_last());
        lemma_ties_concat(a, b.drop_last(), number);
        assert(ties(a + b, number) =~= ties(a, number) + ties(b, number));
    }
}

proof fn lemma_no_ties(s: Seq<(i64, usize)>, number: i64)
    requires
        forall|k: int| 0 <= k < s.len() ==> (#[trigger] s[k]).0 != number,
    ensures
        ties(s, number) == Seq::<(i64, usize)>::empty(),
    decreases s.len(),
{
    if s.len() > 0 {
        assert(s[s.len() - 1] == s.last());
        assert forall|k: int| 0 <= k < s.drop_last().len() implies (#[trigger] s.drop_last()[k]).0
            != number by {
            assert(s.drop_last()[k] == s[k]);
        }
        lemma_no_ties(s.drop_last(), number);
    }
}

/// Puts two sorted lists together; of equal entries those of `a` come first.
fn merge(a: &Vec<(i64, usize)>, b: &Vec<(i64, usize)>) -> (r: Vec<(i64, usize)>)
    requires
        sorted(a@),
        sorted(b@),
    ensures
        sorted(r@),
        r@.to_multiset() == a@.to_multiset().add(b@.to_multiset()),
        r@.len() == a@.len() + b@.len(),
        forall|number: i64| #[trigger] ties(r@, number) == ties(a@, number) + ties(b@, number),
{
    broadcast use vstd::seq_lib::group_to_multiset_ensures;

    let mut r: Vec<(i64, usize)> = Vec::new();
    let mut i: usize = 0;
    let mut j: usize = 0;
    proof {
        assert(a@.take(0) =~= Seq::<(i64, usize)>::empty());
        assert(b@.take(0) =~= Seq::<(i64, usize)>::empty());
        assert(r@.to_multiset() =~= a@.take(0).to_multiset().add(b@.take(0).to_multiset()));
    }
    while i < a.len() || j < b.len()
        invariant
            i <= a@.len(),
            j <= b@.len(),
            sorted(a@),
            sorted(b@),
            sorted(r@),
            r@.len() == i + j,
            r@.to_multiset() == a@.take(i as int).to_multiset().add(
                b@.take(j as int).to_multiset(),
            ),
            forall|number: i64| #[trigger]
                ties(r@, number) == ties(a@.take(i as int), number) + ties(
                    b@.take(j as int),
                    number,
                ),
            forall|k: int, l: int| 0 <= k < j && i <= l < a@.len() ==> b@[k].0 < a@[l].0,
            forall|k: int, l: int| 0 <= k < r@.len() && i <= l < a@.len() ==> r@[k].0 <= a@[l].0,
            forall|k: int, l: int| 0 <= k < r@.len() && j <= l < b@.len() ==> r@[k].0 <= b@[l].0,
        decreases a@.len() - i + b@.len() - j,
    {
        if i < a.len() && (j >= b.len() || a[i].0 <= b[j].0) {
            let entry = a[i];
            let ghost before = r@;
            r.push(entry);
            proof {
                assert(a@.take(i + 1) =~= a@.take(i as int).push(entry));
                assert forall|number: i64| #[trigger] ties(r@, number) == ties(
                    a@.take(i + 1),
                    number,
                ) + ties(b@.take(j as int), number) by {
                    lemma_ties_push(before, entry, number);
                    lemma_ties_push(a@.take(i as int), entry, number);
                    assert(ties(before, number) == ties(a@.take(i as int), number) + ties(
                        b@.take(j as int),
                        number,
                    ));
                    if number == entry.0 {
                        lemma_no_ties(b@.take(j as int), number);
                        assert(ties(r@, number) =~= ties(a@.take(i + 1), number) + ties(
                            b@.take(j as int),
                            number,
                        ));
                    }
                }
                before.to_multiset_ensures();
                a@.take(i as int).to_multiset_ensures();
                assert(r@.to_multiset() =~= before.to_multiset().insert(entry));
                assert(a@.take(i + 1).to_multiset() =~= a@.take(i as int).to_multiset().insert(
                    entry,
                ));
                assert(r@.to_multiset() =~= a@.take(i + 1).to_multiset().add(
                    b@.take(j as int).to_multiset(),
                ));
            }
            i = i + 1;
        } else {
            let entry = b[j];
            let ghost before = r@;
            r.push(entry);
            proof {
                assert(b@.take(j + 1) =~= b@.take(j as int).push(entry));
                assert forall|number: i64| #[trigger] ties(r@, number) == ties(
                    a@.take(i as int),
                    number,
                ) + ties(b@.take(j + 1), number) by {
                    lemma_ties_push(before, entry, number);
                    lemma_ties_push(b@.take(j as int), entry, number);
                    assert(ties(before, number) == ties(a@.take(i as int), number) + ties(
                        b@.take(j as int),
                        number,
                    ));
                    assert(ties(r@, number) =~= ties(a@.take(i as int), number) + ties(
                        b@.take(j + 1),
                        number,
                    ));
                }
                before.to_multiset_ensures();
                b@.take(j as int).to_multiset_ensures();
                assert(r@.to_multiset() =~= before.to_multiset().insert(entry));
                assert(b@.take(j + 1).to_multiset() =~= b@.take(j as int).to_multiset().insert(
                    entry,
                ));
                assert(r@.to_multiset() =~= a@.take(i as int).to_multiset().add(
                    b@.take(j + 1).to_multiset(),
                ));
            }
            j = j + 1;
        }
    }
    proof {
        assert(a@.take(a@.len() as int) =~= a@);
        assert(b@.take(b@.len() as int) =~= b@);
    }
    r
}

proof fn lemma_split_multiset(s: Seq<(i64, usize)>, n: int)
    requires
        0 <= n <= s.len(),
    ensures
        s.to_multiset() == s.take(n).to_multiset().add(s.skip(n).to_multiset()),
    decreases s.len() - n,
{
    broadcast use vstd::seq_lib::group_to_multiset_ensures;

    if n == s.len() {
        assert(s.take(n) =~= s);
        assert(s.skip(n) =~= Seq::<(i64, usize)>::empty());
        assert(s.to_multiset() =~= s.take(n).to_multiset().add(s.skip(n).to_multiset()));
    } else {
        lemma_split_multiset(s, n + 1);
        let x = s[n];
        assert(s.take(n + 1) =~= s.take(n).push(x));
        let rest = s.skip(n + 1);
        assert(s.skip(n) =~= seq![x] + rest);
        vstd::seq_lib::lemma_multiset_commutative(seq![x], rest);
        assert(seq![x] =~= Seq::<(i64, usize)>::empty().push(x));
        assert(s.to_multiset() =~= s.take(n).to_multiset().add(s.skip(n).to_multiset()));
    }
}

/// The entries in the order of their first number, those with the same one in the order in which they
/// stood.
pub fn sort_entries(entries: Vec<(i64, usize)>) -> (r: Vec<(i64, usize)>)
    ensures
        sorted(r@),
        r@.to_multiset() == entries@.to_multiset(),
        r@.len() == entries@.len(),
        ties_stay(entries@, r@),
    decreases entries@.len(),
{
    let n: usize = entries.len();
    if n <= 1 {
        return entries;
    }
    let half: usize = n / 2;
    let mut front: Vec<(i64, usize)> = Vec::new();
    let mut back: Vec<(i64, usize)> = Vec::new();
    let mut i: usize = 0;
    while i < n
        invariant
            i <= n,
            n == entries@.len(),
            0 < half < n,
            i <= half ==> front@ == entries@.take(i as int) && back@.len() == 0,
            i > half ==> front@ == entries@.take(half as int) && back@ == entries@.subrange(
                half as int,
                i as int,
            ),
        decreases n - i,
    {
        if i < half {
            front.push(entries[i]);
            assert(front@ =~= entries@.take(i + 1));
        } else {
            back.push(entries[i]);
            assert(back@ =~= entries@.subrange(half as int, i + 1));
        }
        i = i + 1;
    }
    proof {
        assert(back@ =~= entries@.skip(half as int));
        lemma_split_multiset(entries@, half as int);
    }
    let ghost (f, b) = (front@, back@);
    let front = sort_entries(front);
    let back = sort_entries(back);
    let r = merge(&front, &back);
    proof {
        assert(entries@ =~= f + b);
        assert forall|number: i64| #[trigger] ties(r@, number) == ties(entries@, number) by {
            lemma_ties_concat(f, b, number);
            assert(ties(front@, number) == ties(f, number));
            assert(ties(back@, number) == ties(b, number));
        }
    }
    r
}

} // verus!
