//! What distances, candidates and partition keys are.

use vstd::arithmetic::power2::*;
use vstd::prelude::*;

use crate::index::build::split;
use crate::index::build::Reference;
use crate::index::knn;
use crate::index::knn::Neighbours;
use crate::index::knn::FAR;
use crate::index::partition_scheme;
use crate::index::partition_scheme::TreePredicate;
use crate::index::partition_set;
use crate::K;
use crate::PACKED_DIMS;

verus! {

/// The square of a difference.
pub open spec fn apart(a: Seq<i16>, b: Seq<i16>, d: int) -> int {
    (a[d] - b[d]) * (a[d] - b[d])
}

/// A distance is the sum of the squares of the differences in the fourteen dimensions; over the stored
/// dimensions two more count.
pub proof fn law_distances_are_sums_of_squares(query: Seq<i16>, vector: Seq<i16>)
    ensures
        knn::distance(query, vector) == apart(query, vector, 0) + apart(query, vector, 1) + apart(
            query,
            vector,
            2,
        ) + apart(query, vector, 3) + apart(query, vector, 4) + apart(query, vector, 5) + apart(
            query,
            vector,
            6,
        ) + apart(query, vector, 7) + apart(query, vector, 8) + apart(query, vector, 9) + apart(
            query,
            vector,
            10,
        ) + apart(query, vector, 11) + apart(query, vector, 12) + apart(query, vector, 13),
        knn::packed_distance(query, vector) == knn::distance(query, vector) + apart(
            query,
            vector,
            14,
        ) + apart(query, vector, 15),
{
    reveal_with_fuel(knn::partial_distance, 17);
}

/// A vector is no way from itself, and as far from another as that is from it.
pub proof fn law_distances_are_symmetric(a: Seq<i16>, b: Seq<i16>, n: nat)
    ensures
        knn::partial_distance(a, b, n) == knn::partial_distance(b, a, n),
        knn::partial_distance(a, a, n) == 0,
        knn::partial_distance(a, b, n) >= 0,
        knn::partial_distance(a, b, n) == 0 ==> forall|d: int| 0 <= d < n ==> a[d] == b[d],
    decreases n,
{
    if n > 0 {
        law_distances_are_symmetric(a, b, (n - 1) as nat);
        let x = a[n - 1] - b[n - 1];
        assert(x * x == (-x) * (-x) && x * x >= 0 && (x * x == 0 ==> x == 0)) by (nonlinear_arith);
    }
}

/// What lies in a box and is nearest to the query: each coordinate of the query, moved to the side of
/// the box that it is beyond.
pub open spec fn nearest_in_box(query: Seq<i16>, min: Seq<i16>, max: Seq<i16>) -> Seq<i16> {
    Seq::new(
        PACKED_DIMS as nat,
        |d: int|
            if query[d] < min[d] {
                min[d]
            } else if query[d] > max[d] {
                max[d]
            } else {
                query[d]
            },
    )
}

proof fn lemma_box_distance(query: Seq<i16>, min: Seq<i16>, max: Seq<i16>, n: nat)
    requires
        n <= PACKED_DIMS,
        forall|d: int| 0 <= d < PACKED_DIMS ==> #[trigger] min[d] <= max[d],
    ensures
        knn::partial_box_distance(query, min, max, n) == knn::partial_distance(
            query,
            nearest_in_box(query, min, max),
            n,
        ),
    decreases n,
{
    if n > 0 {
        lemma_box_distance(query, min, max, (n - 1) as nat);
        let d = n - 1;
        let x = query[d] - nearest_in_box(query, min, max)[d];
        let g = knn::gap(query[d], min[d], max[d]);
        assert(min[d] <= max[d]);
        assert(g == x || g == -x);
        assert(g * g == x * x) by (nonlinear_arith)
            requires
                g == x || g == -x,
        ;
    }
}

/// The distance to a box is the distance to the vector in it that is nearest: there is one that is as
/// near as that, and none that is nearer.
pub proof fn law_box_distance_is_that_of_the_nearest(
    query: Seq<i16>,
    min: Seq<i16>,
    max: Seq<i16>,
    vector: Seq<i16>,
)
    requires
        forall|d: int| 0 <= d < PACKED_DIMS ==> #[trigger] min[d] <= max[d],
        forall|d: int| 0 <= d < PACKED_DIMS ==> min[d] <= #[trigger] vector[d] <= max[d],
    ensures
        ({
            let nearest = nearest_in_box(query, min, max);
            &&& forall|d: int|
                0 <= d < PACKED_DIMS ==> min[d] <= #[trigger] nearest[d] <= max[d]
            &&& knn::box_distance(query, min, max) == knn::packed_distance(query, nearest)
            &&& knn::packed_distance(query, nearest) <= knn::packed_distance(query, vector)
        }),
{
    let nearest = nearest_in_box(query, min, max);
    assert forall|d: int| 0 <= d < PACKED_DIMS implies min[d] <= #[trigger] nearest[d] <= max[d] by {
        assert(min[d] <= max[d]);
    }
    lemma_box_distance(query, min, max, PACKED_DIMS as nat);
    knn::law_box_distance_is_a_lower_bound(query, min, max, vector);
}

/// The candidates stand by distance, and where that is the same, by the references' numbers.
pub open spec fn in_order(n: Neighbours) -> bool {
    &&& n.shaped()
    &&& forall|i: int, j: int|
        0 <= i < j < K ==> #[trigger] n.dists[i] < #[trigger] n.dists[j] || (n.dists[i] == n.dists[j]
            && n.indices[i] <= n.indices[j])
}

/// Slot `i` of one has what slot `j` of the other has.
pub open spec fn same_slot(m: Neighbours, i: int, n: Neighbours, j: int) -> bool {
    &&& m.dists[i] == n.dists[j]
    &&& m.labels[i] == n.labels[j]
    &&& m.indices[i] == n.indices[j]
    &&& m.keys[i] == n.keys[j]
    &&& m.places[i] == n.places[j]
}

/// A new candidate is put in before those that are farther away, or as far with a larger number, and
/// the last one is dropped; a candidate that is not before the last one changes nothing. In every case
/// the candidates stay in order, and what was dropped comes before none of them.
pub proof fn law_candidates_are_kept_in_order(
    n: Neighbours,
    dist: i64,
    label: u8,
    index: u32,
    key: u32,
    place: int,
)
    requires
        in_order(n),
    ensures
        ({
            let m = n.with(dist, label, index, key, place);
            let last = K as int - 1;
            &&& in_order(m)
            &&& (dist > n.dists[last] || (dist == n.dists[last] && index >= n.indices[last])) ==> m
                == n
            &&& (dist < n.dists[last] || (dist == n.dists[last] && index < n.indices[last]))
                ==> exists|p: int|
                0 <= p <= last && #[trigger] m.places[p] == place && m.dists[p] == dist
                    && m.labels[p] == label && m.indices[p] == index && m.keys[p] == key && (forall|
                    i: int,
                |
                    0 <= i < p ==> #[trigger] same_slot(m, i, n, i)) && (forall|i: int|
                    p < i <= last ==> #[trigger] same_slot(m, i, n, i - 1))
        }),
{
    let m = n.with(dist, label, index, key, place);
    let last = K as int - 1;
    if knn::before(dist, index, n.dists[last], n.indices[last]) {
        let p = knn::rank(dist, index, n.dists, n.indices, last as nat) as int;
        lemma_rank(n, dist, index, last as nat);
        assert(m.places[p] == place && m.dists[p] == dist && m.labels[p] == label && m.indices[p]
            == index && m.keys[p] == key);
        assert forall|i: int| 0 <= i < p implies #[trigger] same_slot(m, i, n, i) by {}
        assert forall|i: int| p < i <= last implies #[trigger] same_slot(m, i, n, i - 1) by {}
        assert forall|i: int, j: int| 0 <= i < j < K implies #[trigger] m.dists[i]
            < #[trigger] m.dists[j] || (m.dists[i] == m.dists[j] && m.indices[i]
            <= m.indices[j]) by {
            if i < p {
                assert(same_slot(m, i, n, i));
            } else if i > p {
                assert(same_slot(m, i, n, i - 1));
            }
            if j < p {
                assert(same_slot(m, j, n, j));
            } else if j > p {
                assert(same_slot(m, j, n, j - 1));
            }
            let x = if i > p {
                i - 1
            } else {
                i
            };
            let y = if j > p {
                j - 1
            } else {
                j
            };
            if i != p && j != p {
                assert(n.dists[x] < n.dists[y] || (n.dists[x] == n.dists[y] && n.indices[x]
                    <= n.indices[y]));
            }
        }
    }
}

proof fn lemma_rank(n: Neighbours, dist: i64, index: u32, m: nat)
    requires
        in_order(n),
        m < K,
    ensures
        ({
            let p = knn::rank(dist, index, n.dists, n.indices, m) as int;
            &&& 0 <= p <= m
            &&& forall|i: int|
                0 <= i < p ==> #[trigger] n.dists[i] < dist || (n.dists[i] == dist && n.indices[i]
                    <= index)
            &&& forall|i: int|
                p <= i < m ==> dist < #[trigger] n.dists[i] || (n.dists[i] == dist && index
                    < n.indices[i])
        }),
    decreases m,
{
    if m > 0 && knn::before(dist, index, n.dists[m - 1], n.indices[m - 1]) {
        lemma_rank(n, dist, index, (m - 1) as nat);
    } else if m > 0 {
        assert forall|i: int| 0 <= i < m implies #[trigger] n.dists[i] < dist || (n.dists[i] == dist
            && n.indices[i] <= index) by {
            if i < m - 1 {
                assert(n.dists[i] < n.dists[m - 1] || (n.dists[i] == n.dists[m - 1] && n.indices[i]
                    <= n.indices[m - 1]));
            }
        }
    }
}

/// Before anything is put in there are no candidates: all slots are as far away as can be.
pub proof fn law_no_candidates_at_first()
    ensures
        in_order(Neighbours::none()),
        forall|i: int|
            0 <= i < K ==> #[trigger] Neighbours::none().dists[i] == FAR
                && Neighbours::none().labels[i] == 0 && Neighbours::none().places[i] == -1,
        Neighbours::none().frauds() == 0,
{
}

/// The value falls into bucket `n` of the cuts: it is over the first `n` of them and not over the next.
pub open spec fn falls_into(value: i16, cuts: Seq<i16>, n: int) -> bool {
    &&& 0 <= n <= cuts.len()
    &&& forall|i: int| 0 <= i < n ==> #[trigger] cuts[i] < value
    &&& n < cuts.len() ==> value <= cuts[n]
}

proof fn lemma_falls_into(value: i16, cuts: Seq<i16>)
    ensures
        falls_into(value, cuts, partition_scheme::cuts_below(value, cuts) as int),
    decreases cuts.len(),
{
    if cuts.len() > 0 && value > cuts[0] {
        let rest = cuts.drop_first();
        lemma_falls_into(value, rest);
        let n = partition_scheme::cuts_below(value, rest) as int;
        assert forall|i: int| 0 <= i < n + 1 implies #[trigger] cuts[i] < value by {
            if i > 0 {
                assert(cuts[i] == rest[i - 1]);
            }
        }
        if n < rest.len() {
            assert(rest[n] == cuts[n + 1]);
        }
    }
}

/// The key from cuts is the bucket of the amount, and the bucket of the week day times the smallest
/// power of two that the buckets of amounts fit in, which is at least two, in 32 bits.
pub proof fn law_cut_keys_are_buckets(
    vector: Seq<i16>,
    amount_cuts: Seq<i16>,
    dow_cuts: Seq<i16>,
    amount: int,
    dow: int,
    bits: nat,
)
    requires
        falls_into(vector[0], amount_cuts, amount),
        falls_into(vector[4], dow_cuts, dow),
        amount_cuts.len() < 0x8000_0000,
        bits >= 1,
        amount_cuts.len() < pow2(bits),
        bits > 1 ==> pow2((bits - 1) as nat) <= amount_cuts.len(),
    ensures
        partition_scheme::cut_key(vector, amount_cuts, dow_cuts) == (amount + dow * pow2(bits))
            % 0x1_0000_0000,
{
    lemma_falls_into(vector[0], amount_cuts);
    lemma_falls_into(vector[4], dow_cuts);
    let a = partition_scheme::cuts_below(vector[0], amount_cuts) as int;
    let d = partition_scheme::cuts_below(vector[4], dow_cuts) as int;
    lemma_one_bucket(vector[0], amount_cuts, a, amount);
    lemma_one_bucket(vector[4], dow_cuts, d, dow);
    let buckets = (amount_cuts.len() + 1) as int;
    partition_scheme::lemma_width_exists(buckets);
    partition_scheme::lemma_width_unique(bits, partition_scheme::width_of(buckets), buckets);
}

proof fn lemma_one_bucket(value: i16, cuts: Seq<i16>, a: int, b: int)
    requires
        falls_into(value, cuts, a),
        falls_into(value, cuts, b),
    ensures
        a == b,
{
    if a < b {
        assert(cuts[a] < value);
    } else if b < a {
        assert(cuts[b] < value);
    }
}

/// A walk down a decision tree starts at key 0, and every level doubles the key and adds 1 where the
/// question there is enabled and the coordinate that it asks for is over the threshold. The questions
/// stand level by level.
pub proof fn law_tree_keys_grow_by_answers(
    vector: Seq<i16>,
    predicates: Seq<TreePredicate>,
    depth: nat,
)
    ensures
        partition_scheme::tree_key(vector, predicates, 0) == 0,
        ({
            let key = partition_scheme::tree_key(vector, predicates, depth);
            let question = pow2(depth) - 1 + key;
            let over = question < predicates.len() && predicates[question].enabled
                && predicates[question].dim < 16 && vector[predicates[question].dim as int]
                > predicates[question].threshold;
            &&& 0 <= key < pow2(depth)
            &&& partition_scheme::tree_key(vector, predicates, depth + 1) == 2 * key + (if over {
                1int
            } else {
                0
            })
        }),
{
    lemma2_to64();
    lemma_pow2_unfold(depth + 1);
    partition_scheme::law_tree_key_in_range(vector, predicates, depth);
}

/// The sum of the coordinates of the first `n` of the references.
pub open spec fn total(references: Seq<Reference>, indices: Seq<usize>, d: int, n: nat) -> int
    decreases n,
{
    if n == 0 {
        0
    } else {
        total(references, indices, d, (n - 1) as nat)
            + references[indices[n - 1] as int].vector@[d]
    }
}

/// The squares of how far the coordinates of the first `n` of the references are from their mean, each
/// taken `count` times as large; `sum` is `count` times the mean.
pub open spec fn deviations(
    references: Seq<Reference>,
    indices: Seq<usize>,
    d: int,
    count: int,
    sum: int,
    n: nat,
) -> int
    decreases n,
{
    if n == 0 {
        0
    } else {
        let off = count * references[indices[n - 1] as int].vector@[d] - sum;
        deviations(references, indices, d, count, sum, (n - 1) as nat) + off * off
    }
}

proof fn lemma_deviations(
    references: Seq<Reference>,
    indices: Seq<usize>,
    d: int,
    count: int,
    sum: int,
    n: nat,
)
    ensures
        split::sum(references, indices, d, n) == total(references, indices, d, n),
        deviations(references, indices, d, count, sum, n) == count * count * split::sum_of_squares(
            references,
            indices,
            d,
            n,
        ) - 2 * count * sum * total(references, indices, d, n) + n * sum * sum,
    decreases n,
{
    if n > 0 {
        let m = (n - 1) as nat;
        lemma_deviations(references, indices, d, count, sum, m);
        let x = references[indices[m as int] as int].vector@[d] as int;
        let q = split::sum_of_squares(references, indices, d, m);
        let t = total(references, indices, d, m);
        let off = count * x - sum;
        assert(count * count * q - 2 * count * sum * t + m * sum * sum + off * off == count * count
            * (q + x * x) - 2 * count * sum * (t + x) + n * sum * sum) by (nonlinear_arith)
            requires
                off == count * x - sum,
                n == m + 1,
        ;
        assert(split::coordinate(references, indices, m as int, d) == x);
        assert(split::sum_of_squares(references, indices, d, n) == q + x * x);
        assert(total(references, indices, d, n) == t + x);
        assert(deviations(references, indices, d, count, sum, n) == deviations(
            references,
            indices,
            d,
            count,
            sum,
            m,
        ) + off * off);
    } else {
        assert(count * count * 0 - 2 * count * sum * 0 + 0 * sum * sum == 0) by (nonlinear_arith);
        assert(n * sum * sum == 0) by (nonlinear_arith)
            requires
                n == 0,
        ;
        assert(count * count * split::sum_of_squares(references, indices, d, n) == 0);
        assert(2 * count * sum * total(references, indices, d, n) == 0);
    }
}

/// The spread of references in a dimension is what their variance is: it adds up how far they are from
/// their mean, squared.
pub proof fn law_spread_is_the_distance_from_the_mean(
    references: Seq<Reference>,
    indices: Seq<usize>,
    d: int,
)
    ensures
        ({
            let n = indices.len();
            indices.len() * split::spread(references, indices, d) == deviations(
                references,
                indices,
                d,
                n as int,
                total(references, indices, d, n),
                n,
            )
        }),
{
    let n = indices.len();
    let t = total(references, indices, d, n);
    lemma_deviations(references, indices, d, n as int, t, n);
    let q = split::sum_of_squares(references, indices, d, n);
    assert(n * (n * q - t * t) == n * n * q - 2 * n * t * t + n * t * t) by (nonlinear_arith);
}

/// Cuts stand where they part the values evenly: as many of `count + 1` parts of the values are before
/// a cut as cuts are up to it, but for less than one value, and but for the last value.
pub proof fn law_cuts_part_evenly(i: int, n: int, count: int)
    requires
        0 <= i < count,
        n > 0,
    ensures
        ({
            let rank = partition_scheme::cut_rank(i, n, count);
            &&& 0 <= rank < n
            &&& rank * (count + 1) <= (i + 1) * n
            &&& rank < n - 1 ==> (i + 1) * n < (rank + 1) * (count + 1)
        }),
{
    let (a, b) = ((i + 1) * n, count + 1);
    assert(a >= 0) by (nonlinear_arith)
        requires
            a == (i + 1) * n,
            i >= 0,
            n > 0,
    ;
    let at = a / b;
    assert(at * b <= a < (at + 1) * b && at >= 0) by (nonlinear_arith)
        requires
            at == a / b,
            b > 0,
            a >= 0,
    ;
    let rank = partition_scheme::cut_rank(i, n, count);
    assert(rank * b <= at * b) by (nonlinear_arith)
        requires
            rank <= at,
            b > 0,
    ;
}

/// Keys are near each other if one is near the other.
pub proof fn law_near_keys_are_near_each_other(a: u32, b: u32)
    ensures
        partition_set::near_keys(a).contains(a),
        partition_set::near_keys(a).contains(b) <==> partition_set::near_keys(b).contains(a),
        partition_set::near_keys(a).contains(b) && a != b ==> exists|i: u32|
            i < 8 && a ^ b == #[trigger] (1u32 << i),
{
    if partition_set::near_keys(a).contains(b) && a != b {
        let i = choose|i: u32| i < 8 && b == a ^ (1u32 << i);
        lemma_flipped(a, b, i);
    }
    if partition_set::near_keys(b).contains(a) && a != b {
        let i = choose|i: u32| i < 8 && a == b ^ (1u32 << i);
        lemma_flipped(b, a, i);
    }
}

proof fn lemma_flipped(a: u32, b: u32, i: u32)
    by (bit_vector)
    requires
        b == a ^ (1u32 << i),
    ensures
        a == b ^ (1u32 << i),
        a ^ b == (1u32 << i),
        b ^ a == (1u32 << i),
{
}

} // verus!
