//! How well a partition key keeps neighbours together.

use vstd::prelude::*;

use crate::index::build::Reference;
use crate::index::knn;
use crate::index::partition_scheme;
use crate::index::search;
use crate::index::sort;
use crate::QueryVector;
use crate::DIMS;
use crate::K;
use crate::PACKED_DIMS;

verus! {

/// How many cuts part a dimension into octiles.
pub const OCTILE_CUTS: usize = 7;

/// How many keys there are.
pub const KEY_COUNT: usize = 256;

/// The dimensions that can part the references.
pub fn candidate_dims() -> (r: [usize; 9])
    ensures
        r@ == seq![0usize, 1, 2, 3, 4, 7, 8, 12, 13],
{
    let r = [0usize, 1, 2, 3, 4, 7, 8, 12, 13];
    assert(r@ =~= seq![0usize, 1, 2, 3, 4, 7, 8, 12, 13]);
    r
}

/// The distance between two sampled references.
pub open spec fn sample_step(n: int, sample: int) -> int {
    if n / sample > 1 {
        n / sample
    } else {
        1
    }
}

/// The places of the sampled references among `n`: every so many, from the first on.
pub fn sample_indices(n: usize, sample: usize) -> (r: Vec<usize>)
    requires
        sample > 0,
    ensures
        forall|i: int|
            0 <= i < r@.len() ==> #[trigger] r@[i] == i * sample_step(n as int, sample as int)
                && r@[i] < n,
        n <= r@.len() * sample_step(n as int, sample as int),
{
    let step: usize = if n / sample > 1 {
        n / sample
    } else {
        1
    };
    let mut r: Vec<usize> = Vec::new();
    let mut at: usize = 0;
    proof {
        assert(0 * step == 0);
    }
    while at < n
        invariant_except_break
            at == r@.len() * step,
        invariant
            step >= 1,
            forall|i: int| 0 <= i < r@.len() ==> #[trigger] r@[i] == i * step && r@[i] < n,
        ensures
            r@.len() * step >= n,
        decreases n - at,
    {
        r.push(at);
        proof {
            let m = r@.len() - 1;
            assert((m + 1) * step == m * step + step) by (nonlinear_arith);
        }
        if n - at <= step {
            break;
        }
        at = at + step;
    }
    r
}

/// The cuts of a dimension into octiles; all 0 where there are too few references.
pub open spec fn are_octiles(cuts: Seq<i16>, references: Seq<Reference>, dim: int) -> bool {
    if references.len() < 8 {
        cuts == seq![0i16, 0, 0, 0, 0, 0, 0]
    } else {
        partition_scheme::are_quantiles(
            cuts,
            partition_scheme::coordinates(references, dim),
            OCTILE_CUTS as int,
        )
    }
}

/// The cuts of a dimension into octiles.
pub fn equifreq_cuts(references: &[Reference], dim: usize) -> (r: [i16; OCTILE_CUTS])
    requires
        dim < PACKED_DIMS,
    ensures
        are_octiles(r@, references@, dim as int),
{
    let mut r = [0i16; OCTILE_CUTS];
    if references.len() < 8 {
        assert(r@ =~= seq![0i16, 0, 0, 0, 0, 0, 0]);
        return r;
    }
    let cuts = partition_scheme::compute_quantile_cuts(references, dim, OCTILE_CUTS);
    let mut i: usize = 0;
    while i < OCTILE_CUTS
        invariant
            i <= OCTILE_CUTS,
            cuts@.len() == OCTILE_CUTS,
            forall|k: int| 0 <= k < i ==> r@[k] == cuts@[k],
        decreases OCTILE_CUTS - i,
    {
        r[i] = cuts[i];
        i = i + 1;
    }
    assert(r@ =~= cuts@);
    r
}

/// How many of the first `n` cuts are below the value.
pub open spec fn count_below(value: i16, cuts: Seq<i16>, n: nat) -> nat
    decreases n,
{
    if n == 0 {
        0
    } else {
        count_below(value, cuts, (n - 1) as nat) + (if value > cuts[n - 1] {
            1nat
        } else {
            0nat
        })
    }
}

/// The octile of a value; the first for one that is not above zero.
pub open spec fn octile(value: i16, cuts: Seq<i16>) -> nat {
    if value <= 0 {
        0
    } else {
        count_below(value, cuts, cuts.len())
    }
}

/// The octile of a value.
pub fn bucket8(value: i16, cuts: &[i16; OCTILE_CUTS]) -> (r: u32)
    ensures
        r == octile(value, cuts@),
        r <= OCTILE_CUTS,
{
    if value <= 0 {
        return 0;
    }
    let mut r: u32 = 0;
    let mut i: usize = 0;
    while i < OCTILE_CUTS
        invariant
            i <= OCTILE_CUTS,
            r == count_below(value, cuts@, i as nat),
            r <= i,
        decreases OCTILE_CUTS - i,
    {
        if value > cuts[i] {
            r = r + 1;
        }
        i = i + 1;
    }
    r
}

/// 1 for true, 0 for false.
pub open spec fn one_if(b: bool) -> int {
    if b {
        1
    } else {
        0
    }
}

/// The key of a vector: five tests in the low bits, and above them the octile in a dimension.
pub open spec fn key_of(v: Seq<i16>, dim: int, cuts: Seq<i16>) -> int {
    one_if(v[9] > 0) + 2 * one_if(v[10] > 0) + 4 * one_if(v[11] > 0) + 8 * one_if(v[8] > 2048) + 16
        * one_if(v[2] > 4096) + 32 * octile(v[dim], cuts)
}

/// The key of a vector.
pub fn partition_key(v: &QueryVector, dim: usize, cuts: &[i16; OCTILE_CUTS]) -> (r: u32)
    requires
        dim < PACKED_DIMS,
    ensures
        r == key_of(v@, dim as int, cuts@),
        r < KEY_COUNT,
{
    let mut key: u32 = 0;
    if v[9] > 0 {
        key = key + 1;
    }
    if v[10] > 0 {
        key = key + 2;
    }
    if v[11] > 0 {
        key = key + 4;
    }
    if v[8] > 2048 {
        key = key + 8;
    }
    if v[2] > 4096 {
        key = key + 16;
    }
    key + bucket8(v[dim], cuts) * 32
}

/// The keys of all references.
pub fn partition_keys(
    references: &[Reference],
    dim: usize,
    cuts: &[i16; OCTILE_CUTS],
) -> (r: Vec<u32>)
    requires
        dim < PACKED_DIMS,
    ensures
        r@.len() == references@.len(),
        forall|i: int|
            0 <= i < r@.len() ==> #[trigger] r@[i] == key_of(
                references@[i].vector@,
                dim as int,
                cuts@,
            ) && r@[i] < KEY_COUNT,
{
    let mut r: Vec<u32> = Vec::new();
    let mut i: usize = 0;
    while i < references.len()
        invariant
            i <= references@.len(),
            dim < PACKED_DIMS,
            r@.len() == i,
            forall|k: int|
                0 <= k < i ==> #[trigger] r@[k] == key_of(
                    references@[k].vector@,
                    dim as int,
                    cuts@,
                ) && r@[k] < KEY_COUNT,
        decreases references@.len() - i,
    {
        r.push(partition_key(&references[i].vector, dim, cuts));
        i = i + 1;
    }
    r
}

/// How often a key occurs among the first `n`.
pub open spec fn occurrences(keys: Seq<u32>, key: int, n: nat) -> nat
    decreases n,
{
    if n == 0 {
        0
    } else {
        occurrences(keys, key, (n - 1) as nat) + (if keys[n - 1] == key {
            1nat
        } else {
            0nat
        })
    }
}

/// How often each key below `n` occurs that does.
pub open spec fn sizes_below(keys: Seq<u32>, n: nat) -> Seq<int>
    decreases n,
{
    if n == 0 {
        Seq::empty()
    } else {
        let front = sizes_below(keys, (n - 1) as nat);
        let size = occurrences(keys, n - 1, keys.len()) as int;
        if size > 0 {
            front.push(size)
        } else {
            front
        }
    }
}

/// The numbers are the sizes of the partitions, in order.
pub open spec fn are_sizes(sizes: Seq<u32>, keys: Seq<u32>) -> bool {
    &&& forall|i: int, j: int| 0 <= i <= j < sizes.len() ==> sizes[i] <= sizes[j]
    &&& sizes.map_values(|s: u32| s as int).to_multiset() == sizes_below(
        keys,
        KEY_COUNT as nat,
    ).to_multiset()
}

/// Counts the keys.
fn count_keys(keys: &Vec<u32>) -> (r: Vec<u32>)
    requires
        keys@.len() <= u32::MAX,
        forall|i: int| 0 <= i < keys@.len() ==> #[trigger] keys@[i] < KEY_COUNT,
    ensures
        r@.len() == KEY_COUNT,
        forall|k: int| 0 <= k < KEY_COUNT ==> #[trigger] r@[k] == occurrences(keys@, k, keys@.len()),
{
    let mut r: Vec<u32> = Vec::new();
    while r.len() < KEY_COUNT
        invariant
            r@.len() <= KEY_COUNT,
            forall|k: int| 0 <= k < r@.len() ==> #[trigger] r@[k] == 0,
        decreases KEY_COUNT - r@.len(),
    {
        r.push(0);
    }
    let mut i: usize = 0;
    while i < keys.len()
        invariant
            i <= keys@.len() <= u32::MAX,
            r@.len() == KEY_COUNT,
            forall|i: int| 0 <= i < keys@.len() ==> #[trigger] keys@[i] < KEY_COUNT,
            forall|k: int|
                0 <= k < KEY_COUNT ==> #[trigger] r@[k] == occurrences(keys@, k, i as nat) && r@[k]
                    <= i,
        decreases keys@.len() - i,
    {
        let key: usize = keys[i] as usize;
        let seen: u32 = r[key];
        r.set(key, seen + 1);
        i = i + 1;
    }
    r
}

/// The sizes of the partitions, in order.
pub fn partition_sizes(keys: &Vec<u32>) -> (r: Vec<u32>)
    requires
        keys@.len() <= u32::MAX,
        forall|i: int| 0 <= i < keys@.len() ==> #[trigger] keys@[i] < KEY_COUNT,
    ensures
        are_sizes(r@, keys@),
{
    let counts = count_keys(keys);
    let mut entries: Vec<(i64, usize)> = Vec::new();
    let mut k: usize = 0;
    while k < KEY_COUNT
        invariant
            k <= KEY_COUNT,
            counts@.len() == KEY_COUNT,
            forall|k: int|
                0 <= k < KEY_COUNT ==> #[trigger] counts@[k] == occurrences(keys@, k, keys@.len()),
            sort_keys(entries@) == sizes_below(keys@, k as nat),
            forall|i: int| 0 <= i < entries@.len() ==> 0 <= (#[trigger] entries@[i]).0 <= u32::MAX,
        decreases KEY_COUNT - k,
    {
        let ghost before = entries@;
        if counts[k] > 0 {
            entries.push((counts[k] as i64, k));
            assert(sort_keys(entries@) =~= sort_keys(before).push(counts@[k as int] as int));
        }
        k = k + 1;
    }
    let ghost unsorted = entries@;
    let sorted = sort::sort_entries(entries);
    proof {
        lemma_same_keys(unsorted, sorted@);
        assert forall|i: int| 0 <= i < sorted@.len() implies 0 <= (#[trigger] sorted@[i]).0
            <= u32::MAX by {
            sorted@.to_multiset_ensures();
            unsorted.to_multiset_ensures();
            assert(sorted@.contains(sorted@[i]));
            assert(unsorted.to_multiset().count(sorted@[i]) > 0);
            assert(unsorted.contains(sorted@[i]));
        }
    }
    let mut r: Vec<u32> = Vec::new();
    let mut i: usize = 0;
    while i < sorted.len()
        invariant
            i <= sorted@.len(),
            r@.len() == i,
            forall|j: int|
                0 <= j < sorted@.len() ==> 0 <= (#[trigger] sorted@[j]).0 <= u32::MAX,
            forall|j: int| 0 <= j < i ==> #[trigger] r@[j] == sorted@[j].0,
        decreases sorted@.len() - i,
    {
        r.push(sorted[i].0 as u32);
        i = i + 1;
    }
    assert(r@.map_values(|s: u32| s as int) =~= sort_keys(sorted@));
    r
}

spec fn sort_keys(entries: Seq<(i64, usize)>) -> Seq<int> {
    entries.map_values(|e: (i64, usize)| e.0 as int)
}

/// Entries in another order have the same numbers in another order.
proof fn lemma_same_keys(a: Seq<(i64, usize)>, b: Seq<(i64, usize)>)
    requires
        a.to_multiset() == b.to_multiset(),
    ensures
        sort_keys(a).to_multiset() == sort_keys(b).to_multiset(),
    decreases a.len(),
{
    broadcast use vstd::seq_lib::group_to_multiset_ensures;

    if a.len() == 0 {
        assert(a.to_multiset().len() == 0);
        assert(b.to_multiset().len() == 0);
        assert(b.len() == 0);
        assert(sort_keys(a) =~= sort_keys(b));
    } else {
        let e = a.last();
        assert(a.contains(e));
        assert(b.to_multiset().count(e) > 0);
        assert(b.contains(e));
        let k = choose|k: int| 0 <= k < b.len() && b[k] == e;
        let rest = a.drop_last();
        let other = b.remove(k);
        assert(a =~= rest.push(e));
        assert(rest.to_multiset() =~= a.to_multiset().remove(e));
        assert(other.to_multiset() =~= b.to_multiset().remove(e));
        lemma_same_keys(rest, other);
        let x = e.0 as int;
        assert(sort_keys(a) =~= sort_keys(rest).push(x));
        assert(sort_keys(a).to_multiset() =~= sort_keys(rest).to_multiset().insert(x));
        assert(sort_keys(other) =~= sort_keys(b).remove(k));
        assert(sort_keys(other).to_multiset() =~= sort_keys(b).to_multiset().remove(x));
        assert(sort_keys(b).contains(x)) by {
            assert(sort_keys(b)[k] == x);
        }
        assert(sort_keys(b).to_multiset() =~= sort_keys(other).to_multiset().insert(x));
    }
}

/// The distance of reference `i` to the query.
pub open spec fn distance_to(references: Seq<Reference>, query: int, i: int) -> int {
    knn::distance(references[query].vector@, references[i].vector@)
}

/// Reference `a` is nearer to the query than `b`; of two at one distance the first is.
pub open spec fn nearer(references: Seq<Reference>, query: int, a: int, b: int) -> bool {
    let left = distance_to(references, query, a);
    let right = distance_to(references, query, b);
    left < right || (left == right && a < b)
}

/// The places of the query's nearest neighbours among the first `n` references, nearest first.
/// `usize::MAX` stands where there are too few.
pub open spec fn are_neighbours(
    r: Seq<usize>,
    references: Seq<Reference>,
    query: int,
    n: int,
) -> bool {
    &&& r.len() == K
    &&& forall|i: int|
        0 <= i < K ==> #[trigger] r[i] == usize::MAX || (r[i] < n && r[i] != query)
    &&& forall|i: int, j: int|
        0 <= i < j < K && r[j] != usize::MAX ==> #[trigger] r[i] != usize::MAX && nearer(
            references,
            query,
            r[i] as int,
            #[trigger] r[j] as int,
        )
    &&& forall|x: int|
        0 <= x < n && x != query && !(#[trigger] r.contains(x as usize)) ==> r[K - 1]
            != usize::MAX && nearer(references, query, r[K - 1] as int, x)
}

/// The distance between two vectors.
fn distance_between(a: &QueryVector, b: &QueryVector) -> (r: i64)
    ensures
        r == knn::distance(a@, b@),
        0 <= r < i64::MAX,
{
    let mut r: i64 = 0;
    let mut d: usize = 0;
    while d < DIMS
        invariant
            d <= DIMS,
            r == knn::partial_distance(a@, b@, d as nat),
            0 <= r <= d * 4_294_836_225,
        decreases DIMS - d,
    {
        let diff: i64 = a[d] as i64 - b[d] as i64;
        assert(0 <= diff * diff <= 4_294_836_225) by (nonlinear_arith)
            requires
                -65535 <= diff <= 65535,
        ;
        r = r + diff * diff;
        d = d + 1;
    }
    r
}

/// The slot holds the distance of the neighbour there.
spec fn holds_distance(
    references: Seq<Reference>,
    query: int,
    dist: i64,
    neighbour: usize,
) -> bool {
    if neighbour == usize::MAX {
        dist == i64::MAX
    } else {
        dist == distance_to(references, query, neighbour as int) && dist < i64::MAX
    }
}

/// With one more reference, which comes in at `p`, the places are right again.
proof fn lemma_neighbour_enters(
    r: Seq<usize>,
    references: Seq<Reference>,
    query: int,
    n: int,
    p: int,
)
    requires
        are_neighbours(r, references, query, n),
        0 <= n < references.len() <= usize::MAX,
        n != query,
        0 <= p < K,
        forall|i: int|
            0 <= i < p ==> r[i] != usize::MAX && nearer(references, query, #[trigger] r[i] as int, n),
        forall|i: int|
            p <= i < K ==> #[trigger] r[i] == usize::MAX || nearer(
                references,
                query,
                n,
                r[i] as int,
            ),
    ensures
        are_neighbours(knn::squeezed(r, p, n as usize), references, query, n + 1),
{
    let t = knn::squeezed(r, p, n as usize);
    assert forall|i: int| 0 <= i < K implies #[trigger] t[i] == (if i < p {
        r[i]
    } else if i == p {
        n as usize
    } else {
        r[i - 1]
    }) by {}
    assert forall|x: int| 0 <= x < n + 1 && x != query && !(#[trigger] t.contains(
        x as usize,
    )) implies t[K - 1] != usize::MAX && nearer(references, query, t[K - 1] as int, x) by {
        if x == n {
            assert(t[p] == x as usize);
        } else if r.contains(x as usize) {
            let j = choose|j: int| 0 <= j < r.len() && r[j] == x as usize;
            if j < p {
                assert(t[j] == x as usize);
            } else if j < K - 1 {
                assert(t[j + 1] == x as usize);
            } else {
                if p == K - 1 {
                } else {
                    assert(t[K - 1] == r[K - 2]);
                    assert(nearer(references, query, r[K - 2] as int, r[K - 1] as int));
                }
            }
        } else {
            assert(r[K - 1] != usize::MAX);
            if p < K - 1 {
                assert(nearer(references, query, r[K - 2] as int, r[K - 1] as int));
            }
        }
    }
}

/// The places of a reference's nearest neighbours, nearest first.
pub fn topk_one(references: &[Reference], query: usize) -> (r: [usize; K])
    requires
        query < references@.len(),
    ensures
        are_neighbours(r@, references@, query as int, references@.len() as int),
{
    let mut dists = [i64::MAX; K];
    let mut places = [usize::MAX; K];
    let count: usize = references.len();
    let mut n: usize = 0;
    while n < count
        invariant
            n <= count,
            count == references@.len(),
            query < references@.len(),
            are_neighbours(places@, references@, query as int, n as int),
            forall|i: int|
                0 <= i < K ==> #[trigger] holds_distance(
                    references@,
                    query as int,
                    dists@[i],
                    places@[i],
                ),
        decreases references@.len() - n,
    {
        if n != query {
            let dist: i64 = distance_between(&references[query].vector, &references[n].vector);
            if dist < dists[K - 1] {
                let mut p: usize = K - 1;
                while p > 0 && dist < dists[p - 1]
                    invariant
                        p < K,
                        forall|i: int| p <= i < K ==> dist < #[trigger] dists@[i],
                    decreases p,
                {
                    p = p - 1;
                }
                let ghost before = places@;
                let ghost near = dists@;
                proof {
                    assert forall|i: int| 0 <= i < p implies before[i] != usize::MAX && nearer(
                        references@,
                        query as int,
                        #[trigger] before[i] as int,
                        n as int,
                    ) by {
                        assert(holds_distance(references@, query as int, near[p - 1], before[p - 1]));
                        assert(holds_distance(references@, query as int, near[i], before[i]));
                        if i < p - 1 {
                            assert(nearer(
                                references@,
                                query as int,
                                before[i] as int,
                                before[p - 1] as int,
                            ));
                        }
                    }
                    assert forall|i: int| p <= i < K implies #[trigger] before[i] == usize::MAX
                        || nearer(references@, query as int, n as int, before[i] as int) by {
                        assert(holds_distance(references@, query as int, near[i], before[i]));
                        assert(dist < near[i]);
                    }
                    lemma_neighbour_enters(
                        before,
                        references@,
                        query as int,
                        n as int,
                        p as int,
                    );
                }
                search::squeeze_in(&mut dists, p, dist);
                search::squeeze_in(&mut places, p, n);
                proof {
                    assert forall|i: int| 0 <= i < K implies #[trigger] holds_distance(
                        references@,
                        query as int,
                        dists@[i],
                        places@[i],
                    ) by {
                        if i < p {
                            assert(holds_distance(references@, query as int, near[i], before[i]));
                        } else if i > p {
                            assert(holds_distance(
                                references@,
                                query as int,
                                near[i - 1],
                                before[i - 1],
                            ));
                        }
                    }
                }
            } else {
                proof {
                    assert(holds_distance(
                        references@,
                        query as int,
                        dists@[K - 1],
                        places@[K - 1],
                    ));
                }
            }
        }
        n = n + 1;
    }
    places
}

/// How many of the first `n` keys are the query's.
pub open spec fn same_keys(keys: Seq<u32>, query: int, neighbours: Seq<usize>, n: nat) -> nat
    decreases n,
{
    if n == 0 {
        0
    } else {
        same_keys(keys, query, neighbours, (n - 1) as nat) + (if keys[neighbours[n - 1] as int]
            == keys[query] {
            1nat
        } else {
            0nat
        })
    }
}

/// How many different keys the first `n` neighbours have.
pub open spec fn different_keys(keys: Seq<u32>, neighbours: Seq<usize>, n: nat) -> nat
    decreases n,
{
    if n == 0 {
        0
    } else {
        different_keys(keys, neighbours, (n - 1) as nat) + (if exists|j: int|
            0 <= j < n - 1 && keys[#[trigger] neighbours[j] as int] == keys[neighbours[n
                - 1] as int] {
            0nat
        } else {
            1nat
        })
    }
}

/// How many of a reference's neighbours share its key, and how many different keys they have.
pub fn neighbour_locality(keys: &Vec<u32>, query: usize, neighbours: &[usize; K]) -> (r: (
    u32,
    usize,
))
    requires
        query < keys@.len(),
        forall|i: int| 0 <= i < K ==> #[trigger] neighbours@[i] < keys@.len(),
    ensures
        r.0 == same_keys(keys@, query as int, neighbours@, K as nat),
        r.1 == different_keys(keys@, neighbours@, K as nat),
{
    let mut same: u32 = 0;
    let mut span: usize = 0;
    let mut i: usize = 0;
    while i < K
        invariant
            i <= K,
            query < keys@.len(),
            forall|i: int| 0 <= i < K ==> #[trigger] neighbours@[i] < keys@.len(),
            same == same_keys(keys@, query as int, neighbours@, i as nat),
            span == different_keys(keys@, neighbours@, i as nat),
            same <= i,
            span <= i,
        decreases K - i,
    {
        let key: u32 = keys[neighbours[i]];
        if key == keys[query] {
            same = same + 1;
        }
        let mut seen: bool = false;
        let mut j: usize = 0;
        while j < i
            invariant
                j <= i < K,
                forall|i: int| 0 <= i < K ==> #[trigger] neighbours@[i] < keys@.len(),
                seen <==> exists|m: int|
                    0 <= m < j && keys@[#[trigger] neighbours@[m] as int] == key,
            decreases i - j,
        {
            if keys[neighbours[j]] == key {
                seen = true;
            }
            j = j + 1;
        }
        if !seen {
            span = span + 1;
        }
        i = i + 1;
    }
    (same, span)
}

} // verus!
