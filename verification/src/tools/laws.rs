//! What holds of the tools' reports.

use vstd::arithmetic::power2::*;
use vstd::prelude::*;

use crate::index::geometry;
use crate::text;
use crate::tools::entries;
use crate::tools::locality;
use crate::tools::measure;
use crate::vector::binary64;
use crate::vector::binary64::Binary64;
use crate::vector::binary64::BINADE;
use crate::vector::binary64::INFINITE;
use crate::vector::exact;
use crate::vector::exact::one;
use crate::vector::exact::TWO_BINADES;
use crate::vector::measures;

verus! {

/// The value of a digit.
pub open spec fn figure(c: char) -> int {
    c as int - '0' as int
}

proof fn lemma_two_digits(n: nat)
    requires
        n < 100,
    ensures
        measure::two_digits(n).len() == 2,
        '0' <= measure::two_digits(n)[0] <= '9',
        '0' <= measure::two_digits(n)[1] <= '9',
        10 * figure(measure::two_digits(n)[0]) + figure(measure::two_digits(n)[1]) == n,
{
    reveal_strlit("0");
    reveal_with_fuel(text::decimal, 3);
}

/// A time of day has two digits each for the hour, the minute and the second, with colons in between,
/// and says how many seconds of the day have passed.
pub proof fn law_times_of_day_say_the_seconds(seconds: nat)
    ensures
        ({
            let t = measure::time_text(seconds);
            let (h, m, s) = (
                10 * figure(t[0]) + figure(t[1]),
                10 * figure(t[3]) + figure(t[4]),
                10 * figure(t[6]) + figure(t[7]),
            );
            &&& t.len() == 8
            &&& t[2] == ':' && t[5] == ':'
            &&& 0 <= h < 24 && 0 <= m < 60 && 0 <= s < 60
            &&& 3600 * h + 60 * m + s == seconds % 86400
        }),
{
    reveal_strlit(":");
    lemma_two_digits((seconds / 3600) % 24);
    lemma_two_digits((seconds / 60) % 60);
    lemma_two_digits(seconds % 60);
}

/// A positive value falls into the octile whose cuts it is between, where these are in order.
pub proof fn law_octiles_are_between_cuts(value: i16, cuts: Seq<i16>, n: nat, k: int)
    requires
        value > 0,
        n <= cuts.len(),
        forall|i: int, j: int| 0 <= i <= j < n ==> cuts[i] <= cuts[j],
        geometry::falls_into(value, cuts.take(n as int), k),
    ensures
        locality::count_below(value, cuts, n) == k,
        n == cuts.len() ==> locality::octile(value, cuts) == k,
    decreases n,
{
    if n > 0 {
        let m = (n - 1) as nat;
        let (all, front) = (cuts.take(n as int), cuts.take(m as int));
        assert forall|i: int| 0 <= i < m implies front[i] == #[trigger] all[i] by {}
        if k == n {
            assert(all[m as int] < value);
            assert forall|i: int| 0 <= i < m implies #[trigger] front[i] < value by {
                assert(all[i] < value);
            }
            law_octiles_are_between_cuts(value, cuts, m, m as int);
        } else {
            assert(value <= all[k]);
            assert(cuts[k] <= cuts[m as int]);
            assert forall|i: int| 0 <= i < k implies #[trigger] front[i] < value by {
                assert(all[i] < value);
            }
            law_octiles_are_between_cuts(value, cuts, m, k);
        }
    }
}

/// A key says of a vector whether it is online, with the card, with an unknown merchant, over 2048 in its
/// transactions and over 4096 in its amount against the average, one bit each, and above them its
/// octile.
pub proof fn law_keys_say_five_bits_and_an_octile(v: Seq<i16>, dim: int, cuts: Seq<i16>)
    ensures
        ({
            let key = locality::key_of(v, dim, cuts);
            &&& key % 2 == 1 <==> v[9] > 0
            &&& (key / 2) % 2 == 1 <==> v[10] > 0
            &&& (key / 4) % 2 == 1 <==> v[11] > 0
            &&& (key / 8) % 2 == 1 <==> v[8] > 2048
            &&& (key / 16) % 2 == 1 <==> v[2] > 4096
            &&& key / 32 == locality::octile(v[dim], cuts)
        }),
{
}

/// The keys of the first `n` neighbours.
pub open spec fn keys_among(keys: Seq<u32>, neighbours: Seq<usize>, n: nat) -> Set<u32>
    decreases n,
{
    if n == 0 {
        Set::empty()
    } else {
        keys_among(keys, neighbours, (n - 1) as nat).insert(keys[neighbours[n - 1] as int])
    }
}

/// Neighbours have as many different keys as the set of their keys has.
pub proof fn law_different_keys_make_a_set(keys: Seq<u32>, neighbours: Seq<usize>, n: nat)
    ensures
        keys_among(keys, neighbours, n).finite(),
        locality::different_keys(keys, neighbours, n) == keys_among(keys, neighbours, n).len(),
        forall|key: u32| #[trigger]
            keys_among(keys, neighbours, n).contains(key) <==> exists|j: int|
                0 <= j < n && keys[#[trigger] neighbours[j] as int] == key,
    decreases n,
{
    if n > 0 {
        let m = (n - 1) as nat;
        law_different_keys_make_a_set(keys, neighbours, m);
        let last = keys[neighbours[m as int] as int];
        let (before, after) = (keys_among(keys, neighbours, m), keys_among(keys, neighbours, n));
        assert forall|key: u32| #[trigger] after.contains(key) <==> exists|j: int|
            0 <= j < n && keys[#[trigger] neighbours[j] as int] == key by {
            if after.contains(key) {
                if key == last {
                    assert(keys[neighbours[m as int] as int] == key);
                } else {
                    assert(before.contains(key));
                }
            }
            if exists|j: int| 0 <= j < n && keys[#[trigger] neighbours[j] as int] == key {
                let j = choose|j: int| 0 <= j < n && keys[#[trigger] neighbours[j] as int] == key;
                if j < m {
                    assert(before.contains(key));
                }
            }
        }
        assert(before.contains(last) <==> exists|j: int|
            0 <= j < m && keys[#[trigger] neighbours[j] as int] == last);
    }
}

/// The number of fraudulent neighbours that a score says is five times the score, to the nearest
/// integer but for an error in the sixth place behind the point.
pub proof fn law_scores_say_their_counts(score: Binary64)
    requires
        !score.negative,
        measures::is_finite(score),
    ensures
        entries::count_of_score(score) matches Some(count) ==> {
            &&& 0 <= count <= 5
            &&& 1_000_000 * (5 * measures::size(score) - count * one()) <= 500_001 * one()
            &&& 1_000_000 * (count * one() - 5 * measures::size(score)) <= 500_001 * one()
        },
        measures::size(score) <= one() ==> entries::count_of_score(score) is Some,
{
    let (o, u) = (one() as int, measures::size(score) as int);
    measures::lemma_one_is_large();
    measures::lemma_integer_is_there(5);
    let five = binary64::of_integer(5);
    assert(measures::size(five) == 5 * o);
    let n = (u * (5 * o)) as nat;
    assert(n >= 0) by (nonlinear_arith)
        requires
            n == u * (5 * o),
            u >= 0,
            o >= 0,
    ;
    let p = binary64::rounded(n, o as nat);
    let product = binary64::product(score, five);
    if p < INFINITE {
        exact::lemma_rounding_error(n, o as nat);
        let v = binary64::units(p) as int;
        let w = 5 * u;
        assert(TWO_BINADES * (v - w) <= w + BINADE && TWO_BINADES * (w - v) <= w + BINADE)
            by (nonlinear_arith)
            requires
                TWO_BINADES * (v * o - n) <= n + BINADE * o,
                TWO_BINADES * (n - v * o) <= n + BINADE * o,
                n == u * (5 * o),
                w == 5 * u,
                o > 0,
        ;
        let whole = (2 * v + o) / (2 * o);
        assert(pow2(1075) == 2 * o);
        assert(2 * o * whole <= 2 * v + o < 2 * o * whole + 2 * o && whole >= 0)
            by (nonlinear_arith)
            requires
                whole == (2 * v + o) / (2 * o),
                o > 0,
                v >= 0,
        ;
        assert(2 * o * whole == 2 * (whole * o)) by (nonlinear_arith);
        if whole <= 5 {
            assert(whole * o <= 5 * o) by (nonlinear_arith)
                requires
                    whole <= 5,
                    o > 0,
            ;
        }
        if u <= o {
            assert(whole <= 5) by (nonlinear_arith)
                requires
                    2 * (whole * o) <= 2 * v + o,
                    TWO_BINADES * (v - w) <= w + BINADE,
                    w <= 5 * o,
                    o >= 0x1_0000_0000_0000_0000,
                    TWO_BINADES == 0x20_0000_0000_0000,
                    BINADE == 0x10_0000_0000_0000,
            ;
        }
    } else if u <= o {
        measures::lemma_infinite_is_large(n, o as nat);
        assert(false) by (nonlinear_arith)
            requires
                n == u * (5 * o),
                n >= 20 * o * o,
                u <= o,
                o > 0,
        ;
    }
}

} // verus!
