//! Boxes around references, and how they are split in two.

use vstd::prelude::*;

use crate::index::build::Reference;
use crate::index::sort;
use crate::settings;
use crate::text;
use crate::QueryVector;
use crate::DIMS;
use crate::PACKED_DIMS;

verus! {

/// Which dimension a tree splits at.
#[derive(Clone, Copy, Debug, Eq, PartialEq, Structural)]
pub enum KdSplitStrategy {
    Widest,
    Variance,
}

/// The strategy that a setting asks for.
pub fn kd_split_strategy(value: Option<&str>) -> (r: KdSplitStrategy)
    ensures
        r == (if settings::said(value) == Some("variance"@) {
            KdSplitStrategy::Variance
        } else {
            KdSplitStrategy::Widest
        }),
{
    match value {
        Some(s) => {
            if text::same_text(s, "variance") {
                KdSplitStrategy::Variance
            } else {
                KdSplitStrategy::Widest
            }
        },
        None => KdSplitStrategy::Widest,
    }
}

/// The indices are those of references.
pub open spec fn in_range(references: Seq<Reference>, indices: Seq<usize>) -> bool {
    forall|k: int| 0 <= k < indices.len() ==> (#[trigger] indices[k]) < references.len()
}

/// Coordinate `d` of the `k`th of the references.
pub open spec fn coordinate(
    references: Seq<Reference>,
    indices: Seq<usize>,
    k: int,
    d: int,
) -> i16 {
    references[indices[k] as int].vector@[d]
}

/// The references' coordinates in a dimension go from `lo` to `hi`.
pub open spec fn goes(
    references: Seq<Reference>,
    indices: Seq<usize>,
    d: int,
    lo: i16,
    hi: i16,
) -> bool {
    &&& forall|k: int|
        0 <= k < indices.len() ==> lo <= #[trigger] coordinate(references, indices, k, d) <= hi
    &&& indices.len() > 0 ==> exists|k: int|
        0 <= k < indices.len() && #[trigger] coordinate(references, indices, k, d) == lo
    &&& indices.len() > 0 ==> exists|k: int|
        0 <= k < indices.len() && #[trigger] coordinate(references, indices, k, d) == hi
}

/// The box holds the references, and no smaller one does.
pub open spec fn is_box(
    references: Seq<Reference>,
    indices: Seq<usize>,
    min: Seq<i16>,
    max: Seq<i16>,
) -> bool {
    forall|d: int|
        0 <= d < PACKED_DIMS ==> #[trigger] goes(references, indices, d, min[d], max[d])
}

/// The smallest and the largest of the references' coordinates in one dimension.
fn extremes(references: &[Reference], indices: &Vec<usize>, d: usize) -> (r: (i16, i16))
    requires
        d < PACKED_DIMS,
        in_range(references@, indices@),
    ensures
        goes(references@, indices@, d as int, r.0, r.1),
{
    let mut lo: i16 = i16::MAX;
    let mut hi: i16 = i16::MIN;
    let mut i: usize = 0;
    while i < indices.len()
        invariant
            i <= indices@.len(),
            d < PACKED_DIMS,
            in_range(references@, indices@),
            forall|k: int|
                0 <= k < i ==> lo <= #[trigger] coordinate(references@, indices@, k, d as int)
                    <= hi,
            i > 0 ==> exists|k: int|
                0 <= k < i && #[trigger] coordinate(references@, indices@, k, d as int) == lo,
            i > 0 ==> exists|k: int|
                0 <= k < i && #[trigger] coordinate(references@, indices@, k, d as int) == hi,
        decreases indices@.len() - i,
    {
        let v: i16 = references[indices[i]].vector[d];
        assert(v == coordinate(references@, indices@, i as int, d as int));
        let ghost (old_lo, old_hi) = (lo, hi);
        let ghost at_lo = choose|k: int|
            0 <= k < i && #[trigger] coordinate(references@, indices@, k, d as int) == lo;
        let ghost at_hi = choose|k: int|
            0 <= k < i && #[trigger] coordinate(references@, indices@, k, d as int) == hi;
        if v < lo || i == 0 {
            lo = v;
        }
        if v > hi || i == 0 {
            hi = v;
        }
        proof {
            if i > 0 && lo == old_lo {
                assert(coordinate(references@, indices@, at_lo, d as int) == lo);
            }
            if i > 0 && hi == old_hi {
                assert(coordinate(references@, indices@, at_hi, d as int) == hi);
            }
        }
        i = i + 1;
    }
    (lo, hi)
}

/// The smallest box that holds the references.
pub fn bounding_box(references: &[Reference], indices: &Vec<usize>) -> (r: (
    QueryVector,
    QueryVector,
))
    requires
        in_range(references@, indices@),
    ensures
        is_box(references@, indices@, r.0@, r.1@),
{
    let mut min: QueryVector = [i16::MAX; PACKED_DIMS];
    let mut max: QueryVector = [i16::MIN; PACKED_DIMS];
    let mut d: usize = 0;
    while d < PACKED_DIMS
        invariant
            d <= PACKED_DIMS,
            in_range(references@, indices@),
            min@.len() == PACKED_DIMS,
            max@.len() == PACKED_DIMS,
            forall|e: int|
                0 <= e < d ==> #[trigger] goes(references@, indices@, e, min@[e], max@[e]),
        decreases PACKED_DIMS - d,
    {
        let ghost (old_min, old_max) = (min@, max@);
        let (lo, hi) = extremes(references, indices, d);
        min[d] = lo;
        max[d] = hi;
        proof {
            assert forall|e: int| 0 <= e < d + 1 implies #[trigger] goes(
                references@,
                indices@,
                e,
                min@[e],
                max@[e],
            ) by {
                if e < d {
                    assert(goes(references@, indices@, e, old_min[e], old_max[e]));
                }
            }
        }
        d = d + 1;
    }
    (min, max)
}

/// How wide a box is.
pub open spec fn width(min: Seq<i16>, max: Seq<i16>, d: int) -> int {
    max[d] - min[d]
}

/// `r` is the first of the dimensions in which the box is widest.
pub open spec fn is_widest(r: int, min: Seq<i16>, max: Seq<i16>) -> bool {
    &&& 0 <= r < DIMS
    &&& forall|d: int| 0 <= d < DIMS ==> #[trigger] width(min, max, d) <= width(min, max, r)
    &&& forall|d: int| 0 <= d < r ==> #[trigger] width(min, max, d) < width(min, max, r)
}

/// The first of the dimensions in which the box is widest.
pub fn widest_dimension(min: &QueryVector, max: &QueryVector) -> (r: usize)
    ensures
        is_widest(r as int, min@, max@),
{
    let mut best_dim: usize = 0;
    let mut best_width: i32 = max[0] as i32 - min[0] as i32;
    let mut d: usize = 1;
    while d < DIMS
        invariant
            1 <= d <= DIMS,
            best_dim < d,
            best_width == width(min@, max@, best_dim as int),
            forall|e: int| 0 <= e < d ==> #[trigger] width(min@, max@, e) <= best_width,
            forall|e: int| 0 <= e < best_dim ==> #[trigger] width(min@, max@, e) < best_width,
        decreases DIMS - d,
    {
        let w: i32 = max[d] as i32 - min[d] as i32;
        if w > best_width {
            best_width = w;
            best_dim = d;
        }
        d = d + 1;
    }
    best_dim
}

/// The sum of the first `n` coordinates in a dimension.
pub open spec fn sum(references: Seq<Reference>, indices: Seq<usize>, d: int, n: nat) -> int
    decreases n,
{
    if n == 0 {
        0
    } else {
        sum(references, indices, d, (n - 1) as nat) + coordinate(references, indices, n - 1, d)
    }
}

/// The sum of the squares of the first `n` coordinates in a dimension.
pub open spec fn sum_of_squares(
    references: Seq<Reference>,
    indices: Seq<usize>,
    d: int,
    n: nat,
) -> int
    decreases n,
{
    if n == 0 {
        0
    } else {
        sum_of_squares(references, indices, d, (n - 1) as nat) + coordinate(
            references,
            indices,
            n - 1,
            d,
        ) * coordinate(references, indices, n - 1, d)
    }
}

/// The variance of the coordinates in a dimension, times the square of their number.
pub open spec fn spread(references: Seq<Reference>, indices: Seq<usize>, d: int) -> int {
    let n = indices.len();
    let s = sum(references, indices, d, n);
    n * sum_of_squares(references, indices, d, n) - s * s
}

/// `r` is the first of the dimensions with the largest variance, of those in which the box has a
/// width; where it has none, the first widest one.
pub open spec fn is_most_varied(
    r: int,
    references: Seq<Reference>,
    indices: Seq<usize>,
    min: Seq<i16>,
    max: Seq<i16>,
) -> bool {
    &&& 0 <= r < DIMS
    &&& if exists|d: int| 0 <= d < DIMS && #[trigger] min[d] != max[d] {
        &&& min[r] != max[r]
        &&& forall|d: int|
            0 <= d < DIMS && #[trigger] min[d] != max[d] ==> spread(references, indices, d)
                <= spread(references, indices, r)
        &&& forall|d: int|
            0 <= d < r && #[trigger] min[d] != max[d] ==> spread(references, indices, d) < spread(
                references,
                indices,
                r,
            )
    } else {
        is_widest(r, min, max)
    }
}

/// The variance of the coordinates in a dimension, times the square of their number.
fn compute_spread(references: &[Reference], indices: &Vec<usize>, d: usize) -> (r: i128)
    requires
        d < PACKED_DIMS,
        in_range(references@, indices@),
        indices@.len() <= 0x3fff_ffff,
    ensures
        r == spread(references@, indices@, d as int),
{
    let mut s: i128 = 0;
    let mut q: i128 = 0;
    let mut i: usize = 0;
    while i < indices.len()
        invariant
            i <= indices@.len() <= 0x3fff_ffff,
            d < PACKED_DIMS,
            in_range(references@, indices@),
            s == sum(references@, indices@, d as int, i as nat),
            q == sum_of_squares(references@, indices@, d as int, i as nat),
            -0x8000 * i <= s <= 0x8000 * i,
            0 <= q <= 0x4000_0000 * i,
        decreases indices@.len() - i,
    {
        let v: i128 = references[indices[i]].vector[d] as i128;
        assert(v == coordinate(references@, indices@, i as int, d as int));
        assert(0 <= v * v <= 0x4000_0000) by (nonlinear_arith)
            requires
                -0x8000 <= v <= 0x7fff,
        ;
        s = s + v;
        q = q + v * v;
        i = i + 1;
    }
    let n: i128 = indices.len() as i128;
    assert(0 <= n * q <= 0x4000_0000 * 0x1000_0000_0000_0000) by (nonlinear_arith)
        requires
            0 <= n <= 0x4000_0000,
            0 <= q <= 0x1000_0000_0000_0000,
    ;
    assert(0 <= s * s <= 0x2000_0000_0000 * 0x2000_0000_0000) by (nonlinear_arith)
        requires
            -0x2000_0000_0000 <= s <= 0x2000_0000_0000,
    ;
    n * q - s * s
}

/// The first of the dimensions with the largest variance, of those in which the box has a width.
pub fn variance_dimension(
    references: &[Reference],
    indices: &Vec<usize>,
    min: &QueryVector,
    max: &QueryVector,
) -> (r: usize)
    requires
        in_range(references@, indices@),
        indices@.len() <= 0x3fff_ffff,
    ensures
        is_most_varied(r as int, references@, indices@, min@, max@),
{
    let mut best: Option<(usize, i128)> = None;
    let mut d: usize = 0;
    while d < DIMS
        invariant
            d <= DIMS,
            in_range(references@, indices@),
            indices@.len() <= 0x3fff_ffff,
            match best {
                None => forall|e: int| 0 <= e < d ==> #[trigger] min@[e] == max@[e],
                Some((dim, score)) => {
                    &&& dim < d
                    &&& min@[dim as int] != max@[dim as int]
                    &&& score == spread(references@, indices@, dim as int)
                    &&& forall|e: int|
                        0 <= e < d && #[trigger] min@[e] != max@[e] ==> spread(
                            references@,
                            indices@,
                            e,
                        ) <= score
                    &&& forall|e: int|
                        0 <= e < dim && #[trigger] min@[e] != max@[e] ==> spread(
                            references@,
                            indices@,
                            e,
                        ) < score
                },
            },
        decreases DIMS - d,
    {
        if min[d] != max[d] {
            let score: i128 = compute_spread(references, indices, d);
            let better: bool = match best {
                Some((_, best_score)) => score > best_score,
                None => true,
            };
            if better {
                best = Some((d, score));
            }
        }
        d = d + 1;
    }
    match best {
        Some((dim, _)) => dim,
        None => widest_dimension(min, max),
    }
}

/// The references are ordered by their coordinate in a dimension.
pub open spec fn ordered(references: Seq<Reference>, indices: Seq<usize>, d: int) -> bool {
    forall|i: int, j: int|
        0 <= i <= j < indices.len() ==> #[trigger] coordinate(references, indices, i, d)
            <= #[trigger] coordinate(references, indices, j, d)
}

/// Orders the references by their coordinate in a dimension.
pub fn sort_indices(references: &[Reference], indices: &Vec<usize>, d: usize) -> (r: Vec<usize>)
    requires
        d < PACKED_DIMS,
        in_range(references@, indices@),
        indices@.no_duplicates(),
    ensures
        in_range(references@, r@),
        r@.no_duplicates(),
        r@.len() == indices@.len(),
        forall|x: usize| #[trigger] r@.contains(x) <==> indices@.contains(x),
        ordered(references@, r@, d as int),
{
    let mut entries: Vec<(i64, usize)> = Vec::new();
    let mut i: usize = 0;
    while i < indices.len()
        invariant
            i <= indices@.len(),
            d < PACKED_DIMS,
            in_range(references@, indices@),
            entries@.len() == i,
            forall|k: int|
                0 <= k < i ==> (#[trigger] entries@[k]).1 == indices@[k] && entries@[k].0
                    == coordinate(references@, indices@, k, d as int),
        decreases indices@.len() - i,
    {
        let idx: usize = indices[i];
        entries.push((references[idx].vector[d] as i64, idx));
        i = i + 1;
    }
    let ghost unsorted = entries@;
    let sorted = sort::sort_entries(entries);
    proof {
        assert(unsorted.no_duplicates()) by {
            assert forall|a: int, b: int| 0 <= a < unsorted.len() && 0 <= b < unsorted.len() && a != b
                implies unsorted[a] != unsorted[b] by {
                assert(indices@[a] != indices@[b]);
            }
        }
        unsorted.lemma_multiset_has_no_duplicates();
        sorted@.lemma_multiset_has_no_duplicates_conv();
        unsorted.to_multiset_ensures();
        sorted@.to_multiset_ensures();
        assert forall|k: int| 0 <= k < sorted@.len() implies unsorted.contains(
            #[trigger] sorted@[k],
        ) by {
            assert(sorted@.contains(sorted@[k]));
            assert(sorted@.to_multiset().count(sorted@[k]) > 0);
        }
        assert forall|k: int| 0 <= k < unsorted.len() implies sorted@.contains(
            #[trigger] unsorted[k],
        ) by {
            assert(unsorted.contains(unsorted[k]));
            assert(unsorted.to_multiset().count(unsorted[k]) > 0);
        }
    }
    let mut r: Vec<usize> = Vec::new();
    let mut j: usize = 0;
    while j < sorted.len()
        invariant
            j <= sorted@.len(),
            r@.len() == j,
            forall|k: int| 0 <= k < j ==> #[trigger] r@[k] == sorted@[k].1,
        decreases sorted@.len() - j,
    {
        r.push(sorted[j].1);
        j = j + 1;
    }
    proof {
        assert forall|k: int| 0 <= k < r@.len() implies {
            &&& (#[trigger] r@[k]) < references@.len()
            &&& indices@.contains(r@[k])
            &&& coordinate(references@, r@, k, d as int) == sorted@[k].0
        } by {
            assert(unsorted.contains(sorted@[k]));
            let m = choose|m: int| 0 <= m < unsorted.len() && unsorted[m] == sorted@[k];
            assert(indices@[m] == r@[k]);
        }
        assert forall|a: int, b: int| 0 <= a < r@.len() && 0 <= b < r@.len() && a != b
            implies r@[a] != r@[b] by {
            if r@[a] == r@[b] {
                assert(coordinate(references@, r@, a, d as int) == coordinate(
                    references@,
                    r@,
                    b,
                    d as int,
                ));
                assert(sorted@[a] == sorted@[b]);
            }
        }
        assert forall|x: usize| #[trigger] r@.contains(x) <==> indices@.contains(x) by {
            if indices@.contains(x) {
                let m = choose|m: int| 0 <= m < indices@.len() && indices@[m] == x;
                assert(sorted@.contains(unsorted[m]));
                let k = choose|k: int| 0 <= k < sorted@.len() && sorted@[k] == unsorted[m];
                assert(r@[k] == x);
            }
        }
        assert forall|a: int, b: int| 0 <= a <= b < r@.len() implies #[trigger] coordinate(
            references@,
            r@,
            a,
            d as int,
        ) <= #[trigger] coordinate(references@, r@, b, d as int) by {
            assert(r@[a] < references@.len() && r@[b] < references@.len());
        }
    }
    r
}

} // verus!
