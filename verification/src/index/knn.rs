//! What the nearest neighbours of a query are.

use vstd::prelude::*;

use crate::QueryVector;
use crate::DIMS;
use crate::K;
use crate::PACKED_DIMS;

verus! {

/// A labelled reference as the index holds it.
#[derive(Clone, Copy, Debug)]
pub struct Lane {
    pub vector: [i16; DIMS],
    pub label: u8,
    pub ref_index: u32,
}

/// The distance that stands for "no neighbour".
pub const FAR: i64 = 0x7fff_ffff_ffff_ffff;

/// The square of the difference of two coordinates.
pub open spec fn squared_difference(a: i16, b: i16) -> int {
    (a - b) * (a - b)
}

/// The squared distance in the first `n` dimensions.
pub open spec fn partial_distance(query: Seq<i16>, vector: Seq<i16>, n: nat) -> int
    decreases n,
{
    if n == 0 {
        0
    } else {
        partial_distance(query, vector, (n - 1) as nat) + squared_difference(
            query[n - 1],
            vector[n - 1],
        )
    }
}

/// The squared Euclidean distance of a query to a reference.
pub open spec fn distance(query: Seq<i16>, vector: Seq<i16>) -> int {
    partial_distance(query, vector, DIMS as nat)
}

/// The squared Euclidean distance over the stored dimensions, those that only pad a vector too.
pub open spec fn packed_distance(query: Seq<i16>, vector: Seq<i16>) -> int {
    partial_distance(query, vector, PACKED_DIMS as nat)
}

/// How far a coordinate lies outside an interval.
pub open spec fn gap(q: i16, min: i16, max: i16) -> int {
    let below = if min > q {
        min - q
    } else {
        0
    };
    let above = if q > max {
        q - max
    } else {
        0
    };
    if below > above {
        below
    } else {
        above
    }
}

/// The squared distance of a query to a box in the first `n` dimensions.
pub open spec fn partial_box_distance(
    query: Seq<i16>,
    min: Seq<i16>,
    max: Seq<i16>,
    n: nat,
) -> int
    decreases n,
{
    if n == 0 {
        0
    } else {
        partial_box_distance(query, min, max, (n - 1) as nat) + gap(
            query[n - 1],
            min[n - 1],
            max[n - 1],
        ) * gap(query[n - 1], min[n - 1], max[n - 1])
    }
}

/// The squared distance of a query to a box, over the stored dimensions.
pub open spec fn box_distance(query: Seq<i16>, min: Seq<i16>, max: Seq<i16>) -> int {
    partial_box_distance(query, min, max, PACKED_DIMS as nat)
}

/// The vector lies in the box.
pub open spec fn inside(vector: Seq<i16>, min: Seq<i16>, max: Seq<i16>) -> bool {
    forall|d: int| 0 <= d < PACKED_DIMS ==> min[d] <= #[trigger] vector[d] <= max[d]
}

proof fn lemma_partial_distance_bounds(query: Seq<i16>, vector: Seq<i16>, n: nat)
    ensures
        0 <= partial_distance(query, vector, n) <= n * 4_294_836_225,
    decreases n,
{
    if n > 0 {
        lemma_partial_distance_bounds(query, vector, (n - 1) as nat);
        let x = query[n - 1] - vector[n - 1];
        assert(0 <= x * x <= 4_294_836_225) by (nonlinear_arith)
            requires
                -65535 <= x <= 65535,
        ;
    }
}

/// A distance is never negative, and is less than `FAR`.
pub proof fn lemma_distance_bounds(query: Seq<i16>, vector: Seq<i16>)
    ensures
        0 <= distance(query, vector) < FAR,
{
    lemma_partial_distance_bounds(query, vector, DIMS as nat);
}

/// The dimensions that pad a vector bring nothing nearer.
pub proof fn lemma_packed_distance(query: Seq<i16>, vector: Seq<i16>)
    ensures
        distance(query, vector) <= packed_distance(query, vector),
{
    lemma_distance_grows(query, vector, DIMS as nat, PACKED_DIMS as nat);
}

/// Where the padding agrees, it does not count.
pub proof fn lemma_padding_agrees(query: Seq<i16>, vector: Seq<i16>)
    requires
        forall|d: int| DIMS <= d < PACKED_DIMS ==> #[trigger] query[d] == vector[d],
    ensures
        distance(query, vector) == packed_distance(query, vector),
{
    reveal_with_fuel(partial_distance, 3);
    assert(query[14] == vector[14] && query[15] == vector[15]);
}

/// The distance of a box is never negative, and is less than `FAR`.
pub proof fn lemma_box_distance_bounds(query: Seq<i16>, min: Seq<i16>, max: Seq<i16>)
    ensures
        0 <= box_distance(query, min, max) < FAR,
{
    lemma_partial_box_distance_bounds(query, min, max, PACKED_DIMS as nat);
}

proof fn lemma_partial_box_distance_bounds(
    query: Seq<i16>,
    min: Seq<i16>,
    max: Seq<i16>,
    n: nat,
)
    ensures
        0 <= partial_box_distance(query, min, max, n) <= n * 4_294_836_225,
    decreases n,
{
    if n > 0 {
        lemma_partial_box_distance_bounds(query, min, max, (n - 1) as nat);
        let g = gap(query[n - 1], min[n - 1], max[n - 1]);
        assert(0 <= g * g <= 4_294_836_225) by (nonlinear_arith)
            requires
                0 <= g <= 65535,
        ;
    }
}

proof fn lemma_distance_grows(query: Seq<i16>, vector: Seq<i16>, n: nat, m: nat)
    requires
        n <= m,
    ensures
        partial_distance(query, vector, n) <= partial_distance(query, vector, m),
    decreases m,
{
    if n < m {
        lemma_distance_grows(query, vector, n, (m - 1) as nat);
        let x = query[m - 1] - vector[m - 1];
        assert(0 <= x * x) by (nonlinear_arith);
    }
}

proof fn lemma_partial_box_distance(
    query: Seq<i16>,
    min: Seq<i16>,
    max: Seq<i16>,
    vector: Seq<i16>,
    n: nat,
)
    requires
        inside(vector, min, max),
        n <= PACKED_DIMS,
    ensures
        partial_box_distance(query, min, max, n) <= partial_distance(query, vector, n),
    decreases n,
{
    if n > 0 {
        lemma_partial_box_distance(query, min, max, vector, (n - 1) as nat);
        let d = n - 1;
        let g = gap(query[d], min[d], max[d]);
        assert(min[d] <= vector[d] <= max[d]);
        let x = query[d] - vector[d];
        assert(g * g <= x * x) by (nonlinear_arith)
            requires
                0 <= g,
                g <= x || g <= -x,
        ;
    }
}

/// The distance of a query to a box is a lower bound of its distance to every vector in the box,
/// over the stored dimensions.
pub proof fn law_box_distance_is_a_lower_bound(
    query: Seq<i16>,
    min: Seq<i16>,
    max: Seq<i16>,
    vector: Seq<i16>,
)
    requires
        inside(vector, min, max),
    ensures
        box_distance(query, min, max) <= packed_distance(query, vector),
{
    lemma_partial_box_distance(query, min, max, vector, PACKED_DIMS as nat);
}

/// How far away references may be taken to be: no less than they are.
pub open spec fn reach_holds(query: Seq<i16>, lanes: Seq<Lane>, reach: Seq<int>) -> bool {
    &&& reach.len() == lanes.len()
    &&& forall|p: int|
        0 <= p < lanes.len() ==> distance(query, lanes[p].vector@) <= #[trigger] reach[p] < FAR
}

/// `K` candidates for the nearest neighbours, the nearest first. `places` says where the index holds
/// each; -1 stands for none.
#[verifier::ext_equal]
pub struct Neighbours {
    pub dists: Seq<i64>,
    pub labels: Seq<u8>,
    pub indices: Seq<u32>,
    pub keys: Seq<u32>,
    pub places: Seq<int>,
}

/// One distance and reference index comes before another.
pub open spec fn before(dist: i64, index: u32, other_dist: i64, other_index: u32) -> bool {
    dist < other_dist || (dist == other_dist && index < other_index)
}

/// The place among the first `n` candidates behind all that the new one does not come before.
pub open spec fn rank(dist: i64, index: u32, dists: Seq<i64>, indices: Seq<u32>, n: nat) -> nat
    decreases n,
{
    if n > 0 && before(dist, index, dists[n - 1], indices[n - 1]) {
        rank(dist, index, dists, indices, (n - 1) as nat)
    } else {
        n
    }
}

/// `s` with `x` at position `p` and without its last element.
pub open spec fn squeezed<T>(s: Seq<T>, p: int, x: T) -> Seq<T> {
    s.take(p).push(x) + s.subrange(p, s.len() - 1)
}

impl Neighbours {
    /// No candidates yet.
    pub open spec fn none() -> Neighbours {
        Neighbours {
            dists: Seq::new(K as nat, |i: int| FAR),
            labels: Seq::new(K as nat, |i: int| 0u8),
            indices: Seq::new(K as nat, |i: int| u32::MAX),
            keys: Seq::new(K as nat, |i: int| u32::MAX),
            places: Seq::new(K as nat, |i: int| -1int),
        }
    }

    /// There is a place for each of `K` candidates.
    pub open spec fn shaped(self) -> bool {
        &&& self.dists.len() == K
        &&& self.labels.len() == K
        &&& self.indices.len() == K
        &&& self.keys.len() == K
        &&& self.places.len() == K
    }

    /// The largest distance among the candidates.
    pub open spec fn limit(self) -> int {
        self.dists[K - 1] as int
    }

    /// The candidates with a new one among them, if it is near enough.
    pub open spec fn with(self, dist: i64, label: u8, index: u32, key: u32, place: int) -> Neighbours {
        if before(dist, index, self.dists[K - 1], self.indices[K - 1]) {
            let p = rank(dist, index, self.dists, self.indices, (K - 1) as nat) as int;
            Neighbours {
                dists: squeezed(self.dists, p, dist),
                labels: squeezed(self.labels, p, label),
                indices: squeezed(self.indices, p, index),
                keys: squeezed(self.keys, p, key),
                places: squeezed(self.places, p, place),
            }
        } else {
            self
        }
    }

    /// Candidate `i` is none, or the reference at its place.
    pub open spec fn candidate_holds(
        self,
        i: int,
        query: Seq<i16>,
        lanes: Seq<Lane>,
        scope: Set<int>,
    ) -> bool {
        let place = self.places[i];
        if place == -1 {
            self.dists[i] == FAR && self.labels[i] == 0
        } else {
            &&& 0 <= place < lanes.len()
            &&& scope.contains(place)
            &&& self.dists[i] == distance(query, lanes[place].vector@)
            &&& self.labels[i] == lanes[place].label
            &&& self.indices[i] == lanes[place].ref_index
        }
    }

    /// Every candidate is a reference in scope with its distance and its label, the nearest first.
    pub open spec fn sound(self, query: Seq<i16>, lanes: Seq<Lane>, scope: Set<int>) -> bool {
        &&& self.shaped()
        &&& forall|i: int| 0 <= i < K ==> #[trigger] self.candidate_holds(i, query, lanes, scope)
        &&& forall|i: int, j: int| 0 <= i <= j < K ==> self.dists[i] <= self.dists[j]
    }

    /// Every candidate came with the key of a partition that holds it.
    pub open spec fn keyed_by(self, keyed: Set<(u32, int)>) -> bool {
        forall|i: int|
            0 <= i < K ==> (self.places[i] == -1 && self.keys[i] == u32::MAX) || keyed.contains(
                (#[trigger] self.keys[i], self.places[i]),
            )
    }

    /// The reference at `place` is a candidate.
    pub open spec fn has(self, place: int) -> bool {
        exists|i: int| 0 <= i < K && #[trigger] self.places[i] == place
    }

    /// The candidates are `K` nearest ones of the references at the covered places: no two are the
    /// same reference, and no other covered reference reaches nearer than any of them. Where there
    /// are fewer than `K` references, all of them are candidates.
    pub open spec fn nearest(
        self,
        query: Seq<i16>,
        lanes: Seq<Lane>,
        reach: Seq<int>,
        covered: Set<int>,
    ) -> bool {
        &&& self.sound(query, lanes, covered)
        &&& forall|i: int, j: int|
            0 <= i < j < K && self.places[i] != -1 ==> self.places[i] != self.places[j]
        &&& forall|place: int| #[trigger]
            covered.contains(place) ==> 0 <= place < lanes.len() && (self.has(place)
                || reach[place] >= self.limit())
    }

    /// No two candidates are the same reference.
    pub open spec fn apart(self) -> bool {
        forall|i: int, j: int|
            0 <= i < j < K && self.places[i] != -1 ==> self.places[i] != self.places[j]
    }

    /// The number of fraudulent references among the candidates.
    pub open spec fn frauds(self) -> int {
        self.labels[0] + self.labels[1] + self.labels[2] + self.labels[3] + self.labels[4]
    }
}

/// `frauds` is the number of fraudulent references among `K` nearest ones of the covered references.
pub open spec fn counts_nearest(
    frauds: int,
    query: Seq<i16>,
    lanes: Seq<Lane>,
    reach: Seq<int>,
    covered: Set<int>,
) -> bool {
    exists|m: Neighbours|
        #[trigger] m.nearest(query, lanes, reach, covered) && m.frauds() == frauds
}

/// No reference among these has a label other than 0 and 1.
pub open spec fn two_labels(lanes: Seq<Lane>, places: Set<int>) -> bool {
    forall|p: int| #[trigger] places.contains(p) ==> lanes[p].label <= 1
}

proof fn lemma_rank(dist: i64, index: u32, dists: Seq<i64>, indices: Seq<u32>, n: nat)
    requires
        n <= dists.len(),
        forall|i: int, j: int| 0 <= i <= j < dists.len() ==> dists[i] <= dists[j],
    ensures
        rank(dist, index, dists, indices, n) <= n,
        forall|i: int|
            0 <= i < rank(dist, index, dists, indices, n) ==> #[trigger] dists[i] <= dist,
        forall|i: int|
            rank(dist, index, dists, indices, n) <= i < n ==> dist <= #[trigger] dists[i],
    decreases n,
{
    if n > 0 && before(dist, index, dists[n - 1], indices[n - 1]) {
        lemma_rank(dist, index, dists, indices, (n - 1) as nat);
    }
}

/// A new candidate leaves the candidates sound.
pub proof fn lemma_with_sound(
    n: Neighbours,
    dist: i64,
    key: u32,
    place: int,
    query: Seq<i16>,
    lanes: Seq<Lane>,
    scope: Set<int>,
)
    requires
        n.sound(query, lanes, scope),
        0 <= place < lanes.len(),
        scope.contains(place),
        dist == distance(query, lanes[place].vector@),
    ensures
        n.with(dist, lanes[place].label, lanes[place].ref_index, key, place).sound(
            query,
            lanes,
            scope,
        ),
        n.with(dist, lanes[place].label, lanes[place].ref_index, key, place).limit() <= n.limit(),
{
    let index = lanes[place].ref_index;
    let m = n.with(dist, lanes[place].label, index, key, place);
    if before(dist, index, n.dists[K - 1], n.indices[K - 1]) {
        let p = rank(dist, index, n.dists, n.indices, (K - 1) as nat) as int;
        lemma_rank(dist, index, n.dists, n.indices, (K - 1) as nat);
        assert forall|i: int| 0 <= i < K implies #[trigger] m.candidate_holds(
            i,
            query,
            lanes,
            scope,
        ) by {
            if i < p {
                assert(n.candidate_holds(i, query, lanes, scope));
            } else if i > p {
                assert(n.candidate_holds(i - 1, query, lanes, scope));
            }
        }
        assert forall|i: int, j: int| 0 <= i <= j < K implies m.dists[i] <= m.dists[j] by {
            let a = if i < p {
                n.dists[i]
            } else if i == p {
                dist
            } else {
                n.dists[i - 1]
            };
            let b = if j < p {
                n.dists[j]
            } else if j == p {
                dist
            } else {
                n.dists[j - 1]
            };
            assert(m.dists[i] == a);
            assert(m.dists[j] == b);
        }
        assert(m.limit() <= n.limit()) by {
            if p == K - 1 {
                assert(m.dists[K - 1] == dist);
            } else {
                assert(m.dists[K - 1] == n.dists[K - 2]);
            }
        }
    }
}

/// The nearest candidates with a new one among them are the nearest with its place covered too.
pub proof fn lemma_with_nearest(
    n: Neighbours,
    dist: i64,
    key: u32,
    place: int,
    query: Seq<i16>,
    lanes: Seq<Lane>,
    reach: Seq<int>,
    covered: Set<int>,
)
    requires
        reach_holds(query, lanes, reach),
        n.nearest(query, lanes, reach, covered),
        0 <= place < lanes.len(),
        !covered.contains(place),
        dist == distance(query, lanes[place].vector@),
    ensures
        n.with(dist, lanes[place].label, lanes[place].ref_index, key, place).nearest(
            query,
            lanes,
            reach,
            covered.insert(place),
        ),
{
    let index = lanes[place].ref_index;
    let m = n.with(dist, lanes[place].label, index, key, place);
    let wider = covered.insert(place);
    lemma_sound_in_wider_scope(n, query, lanes, covered, wider);
    lemma_with_sound(n, dist, key, place, query, lanes, wider);
    assert(!n.has(place)) by {
        if n.has(place) {
            let i = choose|i: int| 0 <= i < K && #[trigger] n.places[i] == place;
            assert(n.candidate_holds(i, query, lanes, covered));
        }
    }
    lemma_distance_bounds(query, lanes[place].vector@);
    if before(dist, index, n.dists[K - 1], n.indices[K - 1]) {
        let p = rank(dist, index, n.dists, n.indices, (K - 1) as nat) as int;
        lemma_rank(dist, index, n.dists, n.indices, (K - 1) as nat);
        assert forall|i: int, j: int| 0 <= i < j < K && m.places[i] != -1 implies m.places[i]
            != m.places[j] by {
            let a = if i < p {
                n.places[i]
            } else if i == p {
                place
            } else {
                n.places[i - 1]
            };
            let b = if j < p {
                n.places[j]
            } else if j == p {
                place
            } else {
                n.places[j - 1]
            };
            assert(m.places[i] == a);
            assert(m.places[j] == b);
        }
        assert forall|q: int| #[trigger] wider.contains(q) implies 0 <= q < lanes.len() && (m.has(q)
            || reach[q] >= m.limit()) by {
            assert(m.places[p] == place);
            if q != place {
                assert(covered.contains(q));
            }
            if n.has(q) {
                let i = choose|i: int| 0 <= i < K && #[trigger] n.places[i] == q;
                assert(n.candidate_holds(i, query, lanes, covered));
                if i < p {
                    assert(m.places[i] == q);
                } else if i < K - 1 {
                    assert(m.places[i + 1] == q);
                }
            }
        }
    } else {
        assert forall|q: int| #[trigger] wider.contains(q) implies 0 <= q < lanes.len() && (m.has(q)
            || reach[q] >= m.limit()) by {
            if q != place {
                assert(covered.contains(q));
            }
        }
    }
}

/// A new candidate that comes with the key of its partition leaves the candidates with theirs.
pub proof fn lemma_with_keyed(
    n: Neighbours,
    dist: i64,
    label: u8,
    index: u32,
    key: u32,
    place: int,
    keyed: Set<(u32, int)>,
)
    requires
        n.shaped(),
        n.keyed_by(keyed),
        keyed.contains((key, place)),
    ensures
        n.with(dist, label, index, key, place).keyed_by(keyed),
{
    let m = n.with(dist, label, index, key, place);
    if before(dist, index, n.dists[K - 1], n.indices[K - 1]) {
        let p = rank(dist, index, n.dists, n.indices, (K - 1) as nat) as int;
        lemma_rank_in_range(dist, index, n.dists, n.indices, (K - 1) as nat);
        assert forall|i: int| 0 <= i < K implies (m.places[i] == -1 && m.keys[i] == u32::MAX)
            || keyed.contains((#[trigger] m.keys[i], m.places[i])) by {
            if i < p {
                assert(m.keys[i] == n.keys[i] && m.places[i] == n.places[i]);
            } else if i > p {
                assert(m.keys[i] == n.keys[i - 1] && m.places[i] == n.places[i - 1]);
            } else {
                assert(m.keys[i] == key && m.places[i] == place);
            }
        }
    }
}

/// Every candidate was one before, or is the new one.
pub proof fn lemma_with_places(
    n: Neighbours,
    dist: i64,
    label: u8,
    index: u32,
    key: u32,
    place: int,
)
    requires
        n.shaped(),
    ensures
        forall|i: int|
            0 <= i < K ==> #[trigger] n.with(dist, label, index, key, place).places[i] == place
                || n.has(n.with(dist, label, index, key, place).places[i]),
{
    let m = n.with(dist, label, index, key, place);
    lemma_rank_in_range(dist, index, n.dists, n.indices, (K - 1) as nat);
    assert forall|i: int| 0 <= i < K implies #[trigger] m.places[i] == place || n.has(
        m.places[i],
    ) by {
        if before(dist, index, n.dists[K - 1], n.indices[K - 1]) {
            let p = rank(dist, index, n.dists, n.indices, (K - 1) as nat) as int;
            if i < p {
                assert(m.places[i] == n.places[i]);
            } else if i > p {
                assert(m.places[i] == n.places[i - 1]);
            }
        } else {
            assert(m.places[i] == n.places[i]);
        }
    }
}

proof fn lemma_rank_in_range(dist: i64, index: u32, dists: Seq<i64>, indices: Seq<u32>, n: nat)
    ensures
        rank(dist, index, dists, indices, n) <= n,
    decreases n,
{
    if n > 0 && before(dist, index, dists[n - 1], indices[n - 1]) {
        lemma_rank_in_range(dist, index, dists, indices, (n - 1) as nat);
    }
}

/// Where all candidates have one label, and so have other references, these can be covered without
/// being looked at: the nearest of all have that label too.
pub proof fn lemma_one_label(
    n: Neighbours,
    query: Seq<i16>,
    lanes: Seq<Lane>,
    reach: Seq<int>,
    covered: Set<int>,
    more: Set<int>,
    label: u8,
    end: int,
) -> (m: Neighbours)
    requires
        reach_holds(query, lanes, reach),
        n.nearest(query, lanes, reach, covered),
        covered.disjoint(more),
        forall|i: int| 0 <= i < K ==> #[trigger] n.labels[i] == label,
        forall|p: int| #[trigger] more.contains(p) ==> lanes[p].label == label,
        0 <= end <= lanes.len(),
    ensures
        m.nearest(
            query,
            lanes,
            reach,
            covered.union(more.intersect(Set::new(|p: int| 0 <= p < end))),
        ),
        forall|i: int| 0 <= i < K ==> #[trigger] m.labels[i] == label,
    decreases end,
{
    let upto = |e: int| covered.union(more.intersect(Set::new(|p: int| 0 <= p < e)));
    if end == 0 {
        assert(upto(0) =~= covered);
        n
    } else {
        let last = end - 1;
        let m = lemma_one_label(n, query, lanes, reach, covered, more, label, last);
        if more.contains(last) {
            assert(!upto(last).contains(last));
            lemma_distance_bounds(query, lanes[last].vector@);
            let dist = distance(query, lanes[last].vector@) as i64;
            let index = lanes[last].ref_index;
            lemma_with_nearest(m, dist, 0, last, query, lanes, reach, upto(last));
            assert(upto(last).insert(last) =~= upto(end));
            let r = m.with(dist, label, index, 0, last);
            lemma_rank_in_range(dist, index, m.dists, m.indices, (K - 1) as nat);
            assert forall|i: int| 0 <= i < K implies #[trigger] r.labels[i] == label by {
                if before(dist, index, m.dists[K - 1], m.indices[K - 1]) {
                    let p = rank(dist, index, m.dists, m.indices, (K - 1) as nat) as int;
                    if i > p {
                        assert(r.labels[i] == m.labels[i - 1]);
                    } else if i < p {
                        assert(r.labels[i] == m.labels[i]);
                    }
                }
            }
            r
        } else {
            assert(upto(last) =~= upto(end));
            m
        }
    }
}

/// The candidates stand in the order of their distances, and of their indices where these are equal.
pub open spec fn in_line(n: Neighbours) -> bool {
    &&& n.shaped()
    &&& forall|i: int, j: int|
        0 <= i < j < K ==> !before(
            #[trigger] n.dists[j],
            n.indices[j],
            #[trigger] n.dists[i],
            n.indices[i],
        )
}

/// The slot of a new candidate; `K` where there is none for it.
spec fn slot(n: Neighbours, dist: i64, index: u32) -> int {
    if before(dist, index, n.dists[K - 1], n.indices[K - 1]) {
        rank(dist, index, n.dists, n.indices, (K - 1) as nat) as int
    } else {
        K as int
    }
}

proof fn lemma_rank_in_line(n: Neighbours, dist: i64, index: u32, k: nat)
    requires
        in_line(n),
        k < K,
    ensures
        rank(dist, index, n.dists, n.indices, k) <= k,
        forall|i: int|
            0 <= i < rank(dist, index, n.dists, n.indices, k) ==> !before(
                dist,
                index,
                #[trigger] n.dists[i],
                n.indices[i],
            ),
        forall|i: int|
            rank(dist, index, n.dists, n.indices, k) <= i < k ==> before(
                dist,
                index,
                #[trigger] n.dists[i],
                n.indices[i],
            ),
    decreases k,
{
    if k > 0 && before(dist, index, n.dists[k - 1], n.indices[k - 1]) {
        lemma_rank_in_line(n, dist, index, (k - 1) as nat);
    } else if k > 0 {
        assert forall|i: int| 0 <= i < k implies !before(
            dist,
            index,
            #[trigger] n.dists[i],
            n.indices[i],
        ) by {
            if i < k - 1 {
                assert(!before(n.dists[k - 1], n.indices[k - 1], n.dists[i], n.indices[i]));
            }
        }
    }
}

proof fn lemma_slot(n: Neighbours, dist: i64, index: u32)
    requires
        in_line(n),
    ensures
        0 <= slot(n, dist, index) <= K,
        forall|i: int|
            0 <= i < slot(n, dist, index) ==> !before(
                dist,
                index,
                #[trigger] n.dists[i],
                n.indices[i],
            ),
        forall|i: int|
            slot(n, dist, index) <= i < K ==> before(
                dist,
                index,
                #[trigger] n.dists[i],
                n.indices[i],
            ),
{
    lemma_rank_in_line(n, dist, index, (K - 1) as nat);
    if !before(dist, index, n.dists[K - 1], n.indices[K - 1]) {
        assert forall|i: int| 0 <= i < K implies !before(
            dist,
            index,
            #[trigger] n.dists[i],
            n.indices[i],
        ) by {
            if i < K - 1 {
                assert(!before(n.dists[K - 1], n.indices[K - 1], n.dists[i], n.indices[i]));
            }
        }
    }
}

/// A new candidate is put into its slot, and those from there on move up.
proof fn lemma_with_slots(
    n: Neighbours,
    dist: i64,
    label: u8,
    index: u32,
    key: u32,
    place: int,
    i: int,
)
    requires
        in_line(n),
        0 <= i < K,
    ensures
        ({
            let p = slot(n, dist, index);
            let m = n.with(dist, label, index, key, place);
            &&& m.shaped()
            &&& i < p ==> m.dists[i] == n.dists[i] && m.labels[i] == n.labels[i] && m.indices[i]
                == n.indices[i] && m.keys[i] == n.keys[i] && m.places[i] == n.places[i]
            &&& i == p ==> m.dists[i] == dist && m.labels[i] == label && m.indices[i] == index
                && m.keys[i] == key && m.places[i] == place
            &&& i > p ==> m.dists[i] == n.dists[i - 1] && m.labels[i] == n.labels[i - 1]
                && m.indices[i] == n.indices[i - 1] && m.keys[i] == n.keys[i - 1] && m.places[i]
                == n.places[i - 1]
        }),
{
    lemma_slot(n, dist, index);
}

/// A new candidate leaves the others in line.
pub proof fn lemma_with_in_line(
    n: Neighbours,
    dist: i64,
    label: u8,
    index: u32,
    key: u32,
    place: int,
)
    requires
        in_line(n),
    ensures
        in_line(n.with(dist, label, index, key, place)),
{
    let m = n.with(dist, label, index, key, place);
    lemma_slot(n, dist, index);
    lemma_with_slots(n, dist, label, index, key, place, 0);
    assert forall|i: int, j: int| 0 <= i < j < K implies !before(
        #[trigger] m.dists[j],
        m.indices[j],
        #[trigger] m.dists[i],
        m.indices[i],
    ) by {
        lemma_with_slots(n, dist, label, index, key, place, i);
        lemma_with_slots(n, dist, label, index, key, place, j);
        let p = slot(n, dist, index);
        if j < p {
            assert(!before(n.dists[j], n.indices[j], n.dists[i], n.indices[i]));
        } else if j == p {
            assert(!before(dist, index, n.dists[i], n.indices[i]));
        } else if i < p {
            if i < j - 1 {
                assert(!before(n.dists[j - 1], n.indices[j - 1], n.dists[i], n.indices[i]));
            }
        } else if i == p {
            assert(before(dist, index, n.dists[j - 1], n.indices[j - 1]));
        } else {
            assert(!before(n.dists[j - 1], n.indices[j - 1], n.dists[i - 1], n.indices[i - 1]));
        }
    }
}

/// The slot is the one behind all candidates that the new one does not come before.
proof fn lemma_slot_is(n: Neighbours, dist: i64, index: u32, p: int)
    requires
        in_line(n),
        0 <= p <= K,
        forall|i: int|
            0 <= i < p ==> !before(dist, index, #[trigger] n.dists[i], n.indices[i]),
        forall|i: int| p <= i < K ==> before(dist, index, #[trigger] n.dists[i], n.indices[i]),
    ensures
        slot(n, dist, index) == p,
{
    lemma_slot(n, dist, index);
    let q = slot(n, dist, index);
    if q < p {
        assert(before(dist, index, n.dists[q], n.indices[q]));
    } else if p < q {
        assert(before(dist, index, n.dists[p], n.indices[p]));
    }
}

/// Two new candidates, the one that comes first being put in first or last.
proof fn lemma_two_orders(
    n: Neighbours,
    dist: i64,
    label: u8,
    index: u32,
    key: u32,
    place: int,
    dist2: i64,
    label2: u8,
    index2: u32,
    key2: u32,
    place2: int,
)
    requires
        in_line(n),
        before(dist, index, dist2, index2),
    ensures
        n.with(dist, label, index, key, place).with(dist2, label2, index2, key2, place2) == n.with(
            dist2,
            label2,
            index2,
            key2,
            place2,
        ).with(dist, label, index, key, place),
{
    let a = n.with(dist, label, index, key, place);
    let b = n.with(dist2, label2, index2, key2, place2);
    let ab = a.with(dist2, label2, index2, key2, place2);
    let ba = b.with(dist, label, index, key, place);
    let p = slot(n, dist, index);
    let q = slot(n, dist2, index2);
    lemma_slot(n, dist, index);
    lemma_slot(n, dist2, index2);
    lemma_with_in_line(n, dist, label, index, key, place);
    lemma_with_in_line(n, dist2, label2, index2, key2, place2);
    assert(p <= q) by {
        if q < p {
            assert(before(dist2, index2, n.dists[q], n.indices[q]));
            assert(!before(dist, index, n.dists[q], n.indices[q]));
        }
    }
    let q2: int = if q < K {
        q + 1
    } else {
        K as int
    };
    assert forall|i: int| 0 <= i < q2 implies !before(
        dist2,
        index2,
        #[trigger] a.dists[i],
        a.indices[i],
    ) by {
        lemma_with_slots(n, dist, label, index, key, place, i);
        if i < p {
            assert(!before(dist2, index2, n.dists[i], n.indices[i]));
        } else if i > p {
            assert(!before(dist2, index2, n.dists[i - 1], n.indices[i - 1]));
        }
    }
    assert forall|i: int| q2 <= i < K implies before(
        dist2,
        index2,
        #[trigger] a.dists[i],
        a.indices[i],
    ) by {
        lemma_with_slots(n, dist, label, index, key, place, i);
        assert(before(dist2, index2, n.dists[i - 1], n.indices[i - 1]));
    }
    lemma_slot_is(a, dist2, index2, q2);
    assert forall|i: int| 0 <= i < p implies !before(
        dist,
        index,
        #[trigger] b.dists[i],
        b.indices[i],
    ) by {
        lemma_with_slots(n, dist2, label2, index2, key2, place2, i);
        assert(!before(dist, index, n.dists[i], n.indices[i]));
    }
    assert forall|i: int| p <= i < K implies before(
        dist,
        index,
        #[trigger] b.dists[i],
        b.indices[i],
    ) by {
        lemma_with_slots(n, dist2, label2, index2, key2, place2, i);
        if i < q {
            assert(before(dist, index, n.dists[i], n.indices[i]));
        } else if i > q {
            assert(before(dist, index, n.dists[i - 1], n.indices[i - 1]));
        }
    }
    lemma_slot_is(b, dist, index, p);
    lemma_with_slots(a, dist2, label2, index2, key2, place2, 0);
    lemma_with_slots(b, dist, label, index, key, place, 0);
    assert forall|i: int| 0 <= i < K implies ab.dists[i] == ba.dists[i] && ab.labels[i]
        == ba.labels[i] && ab.indices[i] == ba.indices[i] && ab.keys[i] == ba.keys[i]
        && ab.places[i] == ba.places[i] by {
        lemma_with_slots(a, dist2, label2, index2, key2, place2, i);
        lemma_with_slots(b, dist, label, index, key, place, i);
        lemma_with_slots(n, dist, label, index, key, place, i);
        lemma_with_slots(n, dist2, label2, index2, key2, place2, i);
        if i > 0 {
            lemma_with_slots(n, dist, label, index, key, place, i - 1);
            lemma_with_slots(n, dist2, label2, index2, key2, place2, i - 1);
        }
    }
    assert(ab.dists =~= ba.dists);
    assert(ab.labels =~= ba.labels);
    assert(ab.indices =~= ba.indices);
    assert(ab.keys =~= ba.keys);
    assert(ab.places =~= ba.places);
}

/// It does not matter which of two candidates is put in first, unless they have the same distance and
/// the same index.
proof fn lemma_either_may_come_first(
    n: Neighbours,
    dist: i64,
    label: u8,
    index: u32,
    key: u32,
    place: int,
    dist2: i64,
    label2: u8,
    index2: u32,
    key2: u32,
    place2: int,
)
    requires
        in_line(n),
        dist != dist2 || index != index2,
    ensures
        n.with(dist, label, index, key, place).with(dist2, label2, index2, key2, place2) == n.with(
            dist2,
            label2,
            index2,
            key2,
            place2,
        ).with(dist, label, index, key, place),
        in_line(n.with(dist, label, index, key, place)),
{
    lemma_with_in_line(n, dist, label, index, key, place);
    if before(dist, index, dist2, index2) {
        lemma_two_orders(
            n,
            dist,
            label,
            index,
            key,
            place,
            dist2,
            label2,
            index2,
            key2,
            place2,
        );
    } else {
        lemma_two_orders(
            n,
            dist2,
            label2,
            index2,
            key2,
            place2,
            dist,
            label,
            index,
            key,
            place,
        );
    }
}

/// A candidate: its distance, label, index, partition key and place.
pub type Candidate = (i64, u8, u32, u32, int);

/// The candidates kept after others have been put in one after the other.
pub open spec fn with_all(n: Neighbours, candidates: Seq<Candidate>) -> Neighbours
    decreases candidates.len(),
{
    if candidates.len() == 0 {
        n
    } else {
        let c = candidates.last();
        with_all(n, candidates.drop_last()).with(c.0, c.1, c.2, c.3, c.4)
    }
}

/// No two candidates have the same distance and the same index.
pub open spec fn told_apart(candidates: Seq<Candidate>) -> bool {
    forall|i: int, j: int|
        0 <= i < j < candidates.len() ==> (#[trigger] candidates[i]).0 != (
        #[trigger] candidates[j]).0 || candidates[i].2 != candidates[j].2
}

proof fn lemma_with_all_in_line(n: Neighbours, candidates: Seq<Candidate>)
    requires
        in_line(n),
    ensures
        in_line(with_all(n, candidates)),
    decreases candidates.len(),
{
    if candidates.len() > 0 {
        let c = candidates.last();
        lemma_with_all_in_line(n, candidates.drop_last());
        lemma_with_in_line(with_all(n, candidates.drop_last()), c.0, c.1, c.2, c.3, c.4);
    }
}

/// Any of the candidates may be put in last.
proof fn lemma_any_may_come_last(n: Neighbours, candidates: Seq<Candidate>, i: int)
    requires
        in_line(n),
        told_apart(candidates),
        0 <= i < candidates.len(),
    ensures
        ({
            let c = candidates[i];
            with_all(n, candidates) == with_all(n, candidates.remove(i)).with(
                c.0,
                c.1,
                c.2,
                c.3,
                c.4,
            )
        }),
    decreases candidates.len(),
{
    let front = candidates.drop_last();
    if i == candidates.len() - 1 {
        assert(candidates.remove(i) =~= front);
    } else {
        let c = candidates[i];
        let l = candidates.last();
        assert(told_apart(front)) by {
            assert forall|x: int, y: int| 0 <= x < y < front.len() implies (#[trigger] front[x]).0
                != (#[trigger] front[y]).0 || front[x].2 != front[y].2 by {
                assert(candidates[x] == front[x] && candidates[y] == front[y]);
            }
        }
        lemma_any_may_come_last(n, front, i);
        let rest = with_all(n, front.remove(i));
        lemma_with_all_in_line(n, front.remove(i));
        assert(c.0 != l.0 || c.2 != l.2) by {
            assert(candidates[candidates.len() - 1] == l);
        }
        lemma_either_may_come_first(rest, c.0, c.1, c.2, c.3, c.4, l.0, l.1, l.2, l.3, l.4);
        assert(candidates.remove(i).drop_last() =~= front.remove(i));
        assert(candidates.remove(i).last() == l);
    }
}

/// The order in which candidates are put in does not matter, as long as no two have the same distance
/// and the same index.
pub proof fn law_insertion_order_does_not_matter(
    n: Neighbours,
    a: Seq<Candidate>,
    b: Seq<Candidate>,
)
    requires
        in_line(n),
        told_apart(a),
        told_apart(b),
        forall|c: Candidate| #[trigger] a.contains(c) <==> b.contains(c),
    ensures
        with_all(n, a) == with_all(n, b),
    decreases b.len(),
{
    if b.len() == 0 {
        if a.len() > 0 {
            assert(a.contains(a[0]));
        }
    } else {
        let l = b.last();
        let front = b.drop_last();
        assert(b[b.len() - 1] == l);
        assert(b.contains(l));
        assert(a.contains(l));
        let i = choose|i: int| 0 <= i < a.len() && a[i] == l;
        let rest = a.remove(i);
        lemma_any_may_come_last(n, a, i);
        assert forall|x: int, y: int| 0 <= x < y < rest.len() implies (#[trigger] rest[x]).0 != (
        #[trigger] rest[y]).0 || rest[x].2 != rest[y].2 by {
            let u = if x < i {
                x
            } else {
                x + 1
            };
            let w = if y < i {
                y
            } else {
                y + 1
            };
            assert(rest[x] == a[u] && rest[y] == a[w]);
        }
        assert forall|x: int, y: int| 0 <= x < y < front.len() implies (#[trigger] front[x]).0 != (
        #[trigger] front[y]).0 || front[x].2 != front[y].2 by {
            assert(front[x] == b[x] && front[y] == b[y]);
        }
        assert forall|c: Candidate| #[trigger] rest.contains(c) <==> front.contains(c) by {
            if rest.contains(c) {
                let x = choose|x: int| 0 <= x < rest.len() && rest[x] == c;
                let u = if x < i {
                    x
                } else {
                    x + 1
                };
                assert(a[u] == c);
                assert(c != l);
                assert(a.contains(c));
                let y = choose|y: int| 0 <= y < b.len() && b[y] == c;
                assert(front[y] == c);
            }
            if front.contains(c) {
                let y = choose|y: int| 0 <= y < front.len() && front[y] == c;
                assert(b[y] == c);
                assert(c != l);
                assert(b.contains(c));
                assert(a.contains(c));
                let u = choose|u: int| 0 <= u < a.len() && a[u] == c;
                if u < i {
                    assert(rest[u] == c);
                } else {
                    assert(rest[u - 1] == c);
                }
            }
        }
        law_insertion_order_does_not_matter(n, rest, front);
    }
}

/// What is sound stays sound where more is in scope.
pub proof fn lemma_sound_in_wider_scope(
    n: Neighbours,
    query: Seq<i16>,
    lanes: Seq<Lane>,
    scope: Set<int>,
    wider: Set<int>,
)
    requires
        n.sound(query, lanes, scope),
        scope.subset_of(wider),
    ensures
        n.sound(query, lanes, wider),
{
    assert forall|i: int| 0 <= i < K implies #[trigger] n.candidate_holds(
        i,
        query,
        lanes,
        wider,
    ) by {
        assert(n.candidate_holds(i, query, lanes, scope));
    }
}

/// References that do not reach nearer than any candidate can be covered without being looked at.
pub proof fn lemma_cover_far(
    n: Neighbours,
    query: Seq<i16>,
    lanes: Seq<Lane>,
    reach: Seq<int>,
    covered: Set<int>,
    far: Set<int>,
)
    requires
        n.nearest(query, lanes, reach, covered),
        forall|p: int| #[trigger]
            far.contains(p) ==> 0 <= p < lanes.len() && reach[p] >= n.limit(),
    ensures
        n.nearest(query, lanes, reach, covered.union(far)),
{
    lemma_sound_in_wider_scope(n, query, lanes, covered, covered.union(far));
}

/// Before anything has been covered, there are no candidates.
pub proof fn lemma_none_nearest(query: Seq<i16>, lanes: Seq<Lane>, reach: Seq<int>)
    ensures
        Neighbours::none().nearest(query, lanes, reach, Set::empty()),
{
    let n = Neighbours::none();
    assert forall|i: int| 0 <= i < K implies #[trigger] n.candidate_holds(
        i,
        query,
        lanes,
        Set::empty(),
    ) by {}
}

/// The squared distance of a query to a box.
pub fn lower_bound_box(query: &QueryVector, min: &QueryVector, max: &QueryVector) -> (r: i64)
    ensures
        r == box_distance(query@, min@, max@),
        0 <= r < FAR,
{
    let mut sum: i64 = 0;
    let mut d: usize = 0;
    while d < PACKED_DIMS
        invariant
            d <= PACKED_DIMS,
            sum == partial_box_distance(query@, min@, max@, d as nat),
            0 <= sum <= d * 4_294_836_225,
        decreases PACKED_DIMS - d,
    {
        let q: i64 = query[d] as i64;
        let lo: i64 = min[d] as i64;
        let hi: i64 = max[d] as i64;
        let below: i64 = if lo > q {
            lo - q
        } else {
            0
        };
        let above: i64 = if q > hi {
            q - hi
        } else {
            0
        };
        let g: i64 = if below > above {
            below
        } else {
            above
        };
        assert(0 <= g * g <= 4_294_836_225) by (nonlinear_arith)
            requires
                0 <= g <= 65535,
        ;
        sum = sum + g * g;
        d = d + 1;
    }
    sum
}

/// The squared distance of a query to a reference; nothing once it is known to be over `limit`.
pub fn bounded_distance(query: &QueryVector, vector: &[i16; DIMS], limit: i64) -> (r: Option<i64>)
    ensures
        r matches Some(dist) ==> dist == distance(query@, vector@),
        r is None ==> distance(query@, vector@) > limit,
{
    let mut sum: i64 = 0;
    let mut d: usize = 0;
    while d < DIMS
        invariant
            d <= DIMS,
            sum == partial_distance(query@, vector@, d as nat),
            0 <= sum <= d * 4_294_836_225,
        decreases DIMS - d,
    {
        let x: i64 = query[d] as i64 - vector[d] as i64;
        assert(0 <= x * x <= 4_294_836_225) by (nonlinear_arith)
            requires
                -65535 <= x <= 65535,
        ;
        sum = sum + x * x;
        d = d + 1;
        if d % 4 == 0 && sum > limit {
            proof {
                lemma_distance_grows(query@, vector@, d as nat, DIMS as nat);
            }
            return None;
        }
    }
    Some(sum)
}

} // verus!
