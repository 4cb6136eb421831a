//! When different searches count the same.

use vstd::prelude::*;

use crate::index::knn;
use crate::index::knn::Lane;
use crate::index::knn::Neighbours;
use crate::index::knn::FAR;
use crate::index::partition_set;
use crate::index::predict;
use crate::index::specialist::SpecialistIndex;
use crate::index::tree;
use crate::index::tree::SearchStats;
use crate::K;

verus! {

/// These are `K` of the references in scope, and each of them, as far away as it may be taken to be,
/// is nearer than every other reference in scope: there is no doubt which are the nearest.
pub open spec fn clear_cut(
    query: Seq<i16>,
    lanes: Seq<Lane>,
    reach: Seq<int>,
    scope: Set<int>,
    nearest: Set<int>,
) -> bool {
    &&& nearest.finite()
    &&& nearest.len() == K
    &&& nearest.subset_of(scope)
    &&& forall|p: int| #[trigger] scope.contains(p) ==> 0 <= p < lanes.len()
    &&& forall|p: int, q: int| #[trigger]
        nearest.contains(p) && #[trigger] scope.contains(q) && !nearest.contains(q) ==> reach[p]
            < knn::distance(query, lanes[q].vector@)
}

/// The sum of the labels of these references among the first `n`.
spec fn label_sum(lanes: Seq<Lane>, places: Set<int>, n: nat) -> int
    decreases n,
{
    if n == 0 {
        0
    } else {
        label_sum(lanes, places, (n - 1) as nat) + if places.contains(n - 1) {
            lanes[n - 1].label as int
        } else {
            0
        }
    }
}

proof fn lemma_label_sum_without(lanes: Seq<Lane>, places: Set<int>, p: int, n: nat)
    requires
        places.contains(p),
        0 <= p,
    ensures
        label_sum(lanes, places, n) == label_sum(lanes, places.remove(p), n) + if p < n {
            lanes[p].label as int
        } else {
            0
        },
    decreases n,
{
    if n > 0 {
        lemma_label_sum_without(lanes, places, p, (n - 1) as nat);
    }
}

proof fn lemma_label_sum_of_none(lanes: Seq<Lane>, n: nat)
    ensures
        label_sum(lanes, Set::empty(), n) == 0,
    decreases n,
{
    if n > 0 {
        lemma_label_sum_of_none(lanes, (n - 1) as nat);
    }
}

/// Where it is clear which references are the nearest, the candidates are these.
proof fn lemma_candidates_are_clear(
    m: Neighbours,
    query: Seq<i16>,
    lanes: Seq<Lane>,
    reach: Seq<int>,
    scope: Set<int>,
    nearest: Set<int>,
)
    requires
        knn::reach_holds(query, lanes, reach),
        m.nearest(query, lanes, reach, scope),
        clear_cut(query, lanes, reach, scope, nearest),
    ensures
        forall|i: int| 0 <= i < K ==> nearest.contains(#[trigger] m.places[i]),
        forall|p: int| #[trigger] nearest.contains(p) ==> m.has(p),
        m.frauds() == label_sum(lanes, nearest, lanes.len()),
{
    let places = m.places;
    assert(m.candidate_holds(0, query, lanes, scope));
    assert(m.candidate_holds(1, query, lanes, scope));
    assert(m.candidate_holds(2, query, lanes, scope));
    assert(m.candidate_holds(3, query, lanes, scope));
    assert(m.candidate_holds(4, query, lanes, scope));
    let found = places.to_set();
    assert forall|t: int| #[trigger] nearest.contains(t) implies m.has(t) by {
        if !m.has(t) {
            assert(scope.contains(t));
            assert(reach[t] >= m.limit());
            assert(reach[t] < FAR);
            assert forall|i: int| 0 <= i < K implies #[trigger] places[i] != -1 by {
                assert(m.candidate_holds(i, query, lanes, scope));
                assert(m.dists[i] <= m.dists[K - 1]);
            }
            assert forall|i: int| 0 <= i < K implies nearest.contains(#[trigger] places[i]) by {
                assert(m.candidate_holds(i, query, lanes, scope));
                assert(m.dists[i] <= m.dists[K - 1]);
                if !nearest.contains(places[i]) {
                    assert(scope.contains(places[i]));
                    assert(reach[t] < knn::distance(query, lanes[places[i]].vector@));
                }
            }
            assert(places.no_duplicates()) by {
                assert forall|i: int, j: int|
                    0 <= i < places.len() && 0 <= j < places.len() && i != j implies places[i]
                    != places[j] by {
                    if i < j {
                        assert(places[i] != places[j]);
                    } else {
                        assert(places[j] != places[i]);
                    }
                }
            }
            places.unique_seq_to_set();
            assert(found.subset_of(nearest.remove(t))) by {
                assert forall|p: int| found.contains(p) implies nearest.remove(t).contains(p) by {
                    let i = choose|i: int| 0 <= i < places.len() && places[i] == p;
                    assert(nearest.contains(places[i]));
                    assert(m.has(p));
                }
            }
            vstd::set_lib::lemma_len_subset(found, nearest.remove(t));
        }
    }
    assert(nearest.subset_of(found)) by {
        assert forall|t: int| nearest.contains(t) implies found.contains(t) by {
            let i = choose|i: int| 0 <= i < K && #[trigger] places[i] == t;
            assert(places[i] == t);
        }
    }
    vstd::seq_lib::seq_to_set_is_finite(places);
    vstd::set_lib::lemma_len_subset(nearest, found);
    places.lemma_cardinality_of_set();
    vstd::set_lib::lemma_subset_equality(nearest, found);
    assert(nearest =~= found);
    assert forall|i: int| 0 <= i < K implies nearest.contains(#[trigger] places[i]) by {
        assert(found.contains(places[i]));
    }
    assert(nearest.contains(places[0]) && nearest.contains(places[1]) && nearest.contains(places[2])
        && nearest.contains(places[3]) && nearest.contains(places[4]));
    assert(places[0] != -1 && places[1] != -1 && places[2] != -1 && places[3] != -1 && places[4]
        != -1) by {
        assert(scope.contains(places[0]) && scope.contains(places[1]) && scope.contains(places[2])
            && scope.contains(places[3]) && scope.contains(places[4]));
    }
    let n = lanes.len();
    let s1 = nearest.remove(places[0]);
    let s2 = s1.remove(places[1]);
    let s3 = s2.remove(places[2]);
    let s4 = s3.remove(places[3]);
    let s5 = s4.remove(places[4]);
    lemma_label_sum_without(lanes, nearest, places[0], n);
    lemma_label_sum_without(lanes, s1, places[1], n);
    lemma_label_sum_without(lanes, s2, places[2], n);
    lemma_label_sum_without(lanes, s3, places[3], n);
    lemma_label_sum_without(lanes, s4, places[4], n);
    assert(s5 =~= Set::<int>::empty()) by {
        assert forall|p: int| !s5.contains(p) by {
            if nearest.contains(p) {
                let i = choose|i: int| 0 <= i < places.len() && places[i] == p;
                assert(i == 0 || i == 1 || i == 2 || i == 3 || i == 4);
            }
        }
    }
    lemma_label_sum_of_none(lanes, n);
}

/// Counting the work of a search changes no count: a search that counts its work counts the same as
/// one that does not. Where the latter may set subtrees aside, it is clear which references are the
/// nearest, and neither search ends early, it counts the same, too.
pub proof fn law_counting_the_work_does_not_change_the_count(
    index: SpecialistIndex,
    query: Seq<i16>,
    n: Neighbours,
    m: Neighbours,
    nearest: Set<int>,
)
    requires
        index.decides(n, query, None),
        index.finds(m, query, None),
        index.defers() ==> {
            &&& index.exact_for(None)
            &&& index.classed(None)
            &&& clear_cut(
                query,
                index.contents.forest.lanes@,
                index.reach(query, None),
                index.scope(None),
                nearest,
            )
            &&& !index.ended_early(n, None)
            &&& !index.ended_early(m, None)
        },
    ensures
        n.frauds() == m.frauds(),
        !index.defers() ==> n == m,
{
    if index.defers() {
        let nodes = index.contents.forest.nodes@;
        let lanes = index.contents.forest.lanes@;
        let reach = index.reach(query, None);
        let scope = index.scope(None);
        tree::lemma_reach_holds(nodes, lanes, query, index.kin(None));
        let o = choose|o: Neighbours| #[trigger]
            o.nearest(query, lanes, reach, scope) && o.frauds() == n.frauds();
        lemma_candidates_are_clear(o, query, lanes, reach, scope, nearest);
        lemma_candidates_are_clear(m, query, lanes, reach, scope, nearest);
    }
}

/// Where all references have one of two labels, a count is at most the number of neighbours, and
/// nothing of it is lost in eight bits.
pub proof fn law_count_is_at_most_k(
    index: SpecialistIndex,
    query: Seq<i16>,
    allowed: Option<Set<u32>>,
    n: Neighbours,
)
    requires
        n.sound(query, index.contents.forest.lanes@, index.scope(allowed)),
        forall|p: int| #[trigger]
            index.scope(allowed).contains(p) ==> index.contents.forest.lanes@[p].label <= 1,
    ensures
        0 <= n.frauds() <= K,
        n.frauds() % 256 == n.frauds(),
{
    let lanes = index.contents.forest.lanes@;
    let scope = index.scope(allowed);
    assert(n.candidate_holds(0, query, lanes, scope));
    assert(n.candidate_holds(1, query, lanes, scope));
    assert(n.candidate_holds(2, query, lanes, scope));
    assert(n.candidate_holds(3, query, lanes, scope));
    assert(n.candidate_holds(4, query, lanes, scope));
}

/// Where fewer nodes count, references are taken to be no farther away.
proof fn lemma_reach_among_fewer(
    nodes: Seq<tree::Node>,
    lanes: Seq<Lane>,
    query: Seq<i16>,
    kin: Set<int>,
    wider: Set<int>,
    p: int,
    n: nat,
)
    requires
        kin.subset_of(wider),
    ensures
        tree::reach_among(nodes, lanes, query, kin, p, n) <= tree::reach_among(
            nodes,
            lanes,
            query,
            wider,
            p,
            n,
        ),
    decreases n,
{
    if n > 0 {
        lemma_reach_among_fewer(nodes, lanes, query, kin, wider, p, (n - 1) as nat);
    }
}

/// The keys that come with a full search are those of the partitions of the nearest references, and
/// searching these partitions alone counts the same, where it is clear which references are the
/// nearest, the full search does not end early, and all keys are small enough for a set.
pub proof fn law_contributing_partitions_are_enough(
    index: SpecialistIndex,
    query: Seq<i16>,
    n: Neighbours,
    m: Neighbours,
    nearest: Set<int>,
)
    requires
        index.exact_for(None),
        forall|i: int| #[trigger]
            index.takes_part(None, i) ==> index.contents.partitions@[i].key
                < partition_set::SET_KEYS,
        clear_cut(
            query,
            index.contents.forest.lanes@,
            index.reach(query, None),
            index.scope(None),
            nearest,
        ),
        index.finds(n, query, None),
        !index.ended_early(n, None),
        index.finds(m, query, Some(partition_set::small_keys(n.keys))),
    ensures
        m.frauds() == n.frauds(),
        partition_set::ascending(
            partition_set::small_keys(n.keys),
            partition_set::SET_KEYS as nat,
        ).len() <= K,
        forall|key: u32| #[trigger]
            partition_set::small_keys(n.keys).contains(key) <==> exists|p: int|
                nearest.contains(p) && #[trigger] index.keyed(None).contains((key, p)),
{
    let nodes = index.contents.forest.nodes@;
    let lanes = index.contents.forest.lanes@;
    let parts = index.contents.partitions@;
    let keys = partition_set::small_keys(n.keys);
    let some = Some(keys);
    let (reach, scope) = (index.reach(query, None), index.scope(None));
    let (nearer, narrower) = (index.reach(query, some), index.scope(some));
    tree::lemma_reach_holds(nodes, lanes, query, index.kin(None));
    tree::lemma_reach_holds(nodes, lanes, query, index.kin(some));
    lemma_candidates_are_clear(n, query, lanes, reach, scope, nearest);
    assert forall|i: int| #[trigger] index.takes_part(some, i) implies index.takes_part(None, i) by {}
    assert(index.exact_for(some));
    assert(index.kin(some).subset_of(index.kin(None))) by {
        assert forall|j: int| index.kin(some).contains(j) implies index.kin(None).contains(j) by {
            let i = choose|i: int|
                index.takes_part(some, i) && #[trigger] index.tribe(i).contains(j);
            assert(index.takes_part(None, i));
        }
    }
    assert forall|p: int| #[trigger] narrower.contains(p) implies scope.contains(p) by {
        let i = choose|i: int|
            index.participants(some).contains(i) && #[trigger] index.below(i).contains(p);
        assert(index.takes_part(some, i));
        assert(index.participants(None).contains(i));
    }
    assert forall|k: int| 0 <= k < K implies {
        &&& keys.contains(#[trigger] n.keys[k])
        &&& narrower.contains(n.places[k])
        &&& index.keyed(None).contains((n.keys[k], n.places[k]))
    } by {
        assert(nearest.contains(n.places[k]));
        assert(scope.contains(n.places[k]));
        assert(n.places[k] != -1);
        let kp = (n.keys[k], n.places[k]);
        assert(index.keyed(None).contains(kp));
        let i = choose|i: int|
            {
                &&& index.takes_part(None, i)
                &&& parts[i].key == kp.0
                &&& #[trigger] index.below(i).contains(kp.1)
            };
        assert(n.keys.contains(n.keys[k]));
        assert(keys.contains(n.keys[k]));
        assert(index.takes_part(some, i));
        assert(index.participants(some).contains(i));
    }
    assert(nearest.subset_of(narrower)) by {
        assert forall|p: int| nearest.contains(p) implies narrower.contains(p) by {
            let k = choose|k: int| 0 <= k < K && #[trigger] n.places[k] == p;
            assert(keys.contains(n.keys[k]));
        }
    }
    assert(clear_cut(query, lanes, nearer, narrower, nearest)) by {
        assert forall|p: int, q: int| #[trigger]
            nearest.contains(p) && #[trigger] narrower.contains(q) && !nearest.contains(
                q,
            ) implies nearer[p] < knn::distance(query, lanes[q].vector@) by {
            assert(scope.contains(q) && scope.contains(p));
            lemma_reach_among_fewer(
                nodes,
                lanes,
                query,
                index.kin(some),
                index.kin(None),
                p,
                nodes.len(),
            );
        }
    }
    predict::law_restricted_search_does_not_end_early(index, m, keys);
    lemma_few_keys(n.keys);
    lemma_candidates_are_clear(m, query, lanes, nearer, narrower, nearest);
    assert forall|key: u32| #[trigger] keys.contains(key) <==> exists|p: int|
        nearest.contains(p) && #[trigger] index.keyed(None).contains((key, p)) by {
        if keys.contains(key) {
            let k = choose|k: int| 0 <= k < n.keys.len() && n.keys[k] == key;
            assert(keys.contains(n.keys[k]));
            assert(nearest.contains(n.places[k]));
            assert(index.keyed(None).contains((key, n.places[k])));
        }
        if exists|p: int| nearest.contains(p) && #[trigger] index.keyed(None).contains((key, p)) {
            let p = choose|p: int|
                nearest.contains(p) && #[trigger] index.keyed(None).contains((key, p));
            let k = choose|k: int| 0 <= k < K && #[trigger] n.places[k] == p;
            assert(keys.contains(n.keys[k]));
            lemma_one_key(index, key, n.keys[k], p);
        }
    }
}

proof fn lemma_ascending(keys: Set<u32>, n: nat)
    requires
        n <= 0x1_0000_0000,
    ensures
        partition_set::ascending(keys, n).no_duplicates(),
        forall|key: u32| #[trigger]
            partition_set::ascending(keys, n).contains(key) ==> keys.contains(key) && key < n,
    decreases n,
{
    if n > 0 {
        let fewer = partition_set::ascending(keys, (n - 1) as nat);
        lemma_ascending(keys, (n - 1) as nat);
        let all = partition_set::ascending(keys, n);
        assert forall|key: u32| #[trigger] all.contains(key) implies keys.contains(key) && key < n by {
            let k = choose|k: int| 0 <= k < all.len() && all[k] == key;
            if k < fewer.len() {
                assert(fewer[k] == key);
                assert(fewer.contains(key));
            }
        }
        assert forall|i: int, j: int|
            0 <= i < all.len() && 0 <= j < all.len() && i != j implies all[i] != all[j] by {
            if i < fewer.len() {
                assert(fewer.contains(fewer[i]));
            }
            if j < fewer.len() {
                assert(fewer.contains(fewer[j]));
            }
        }
    }
}

/// No more keys come out than went in.
proof fn lemma_few_keys(keys: Seq<u32>)
    ensures
        partition_set::ascending(
            partition_set::small_keys(keys),
            partition_set::SET_KEYS as nat,
        ).len() <= keys.len(),
{
    let set = partition_set::small_keys(keys);
    let out = partition_set::ascending(set, partition_set::SET_KEYS as nat);
    lemma_ascending(set, partition_set::SET_KEYS as nat);
    out.unique_seq_to_set();
    assert(out.to_set().subset_of(keys.to_set())) by {
        assert forall|key: u32| out.to_set().contains(key) implies keys.to_set().contains(key) by {
            assert(out.contains(key));
            assert(set.contains(key));
        }
    }
    vstd::seq_lib::seq_to_set_is_finite(keys);
    vstd::set_lib::lemma_len_subset(out.to_set(), keys.to_set());
    keys.lemma_cardinality_of_set();
}

/// A reference is in partitions of one key only.
proof fn lemma_one_key(index: SpecialistIndex, a: u32, b: u32, p: int)
    requires
        index.exact_for(None),
        index.keyed(None).contains((a, p)),
        index.keyed(None).contains((b, p)),
    ensures
        a == b,
{
    let parts = index.contents.partitions@;
    let ka = (a, p);
    let kb = (b, p);
    let i = choose|i: int|
        {
            &&& index.takes_part(None, i)
            &&& parts[i].key == ka.0
            &&& #[trigger] index.below(i).contains(ka.1)
        };
    let j = choose|j: int|
        {
            &&& index.takes_part(None, j)
            &&& parts[j].key == kb.0
            &&& #[trigger] index.below(j).contains(kb.1)
        };
    if i != j {
        assert(index.below(i).disjoint(index.below(j)));
    }
}

proof fn lemma_leaf_count(nodes: Seq<tree::Node>, visited: Seq<int>)
    ensures
        tree::leaf_count(nodes, visited) <= visited.len(),
    decreases visited.len(),
{
    if visited.len() > 0 {
        lemma_leaf_count(nodes, visited.drop_last());
    }
}

/// Numbers below `n`, none of them twice, are at most `n`.
proof fn lemma_few_enough(numbers: Seq<int>, n: int)
    requires
        0 <= n,
        numbers.no_duplicates(),
        forall|k: int| 0 <= k < numbers.len() ==> 0 <= #[trigger] numbers[k] < n,
    ensures
        numbers.len() <= n,
{
    let all = vstd::set_lib::set_int_range(0, n);
    vstd::set_lib::lemma_int_range(0, n);
    numbers.unique_seq_to_set();
    assert(numbers.to_set().subset_of(all)) by {
        assert forall|v: int| numbers.to_set().contains(v) implies all.contains(v) by {
            let k = choose|k: int| 0 <= k < numbers.len() && numbers[k] == v;
            assert(0 <= numbers[k] < n);
        }
    }
    vstd::set_lib::lemma_len_subset(numbers.to_set(), all);
}

/// Some of the numbers, none of them twice, are no more than all of them.
proof fn lemma_no_more(some: Seq<int>, all: Seq<int>)
    requires
        some.no_duplicates(),
        all.no_duplicates(),
        forall|k: int| 0 <= k < some.len() ==> all.contains(#[trigger] some[k]),
    ensures
        some.len() <= all.len(),
{
    some.unique_seq_to_set();
    all.unique_seq_to_set();
    assert(some.to_set().subset_of(all.to_set())) by {
        assert forall|v: int| some.to_set().contains(v) implies all.to_set().contains(v) by {
            let k = choose|k: int| 0 <= k < some.len() && some[k] == v;
            assert(all.contains(some[k]));
        }
    }
    vstd::set_lib::lemma_len_subset(some.to_set(), all.to_set());
}

/// A search in an index that is as it should be scans no more leaves than it visits nodes, visits each
/// node at most once, and each partition at most once; the counts do not wrap. Unless all partitions
/// are searched anyway, it visits at most one more than those it finds by their boxes.
pub proof fn law_work_is_bounded(
    index: SpecialistIndex,
    stats: SearchStats,
    n: Neighbours,
    entered: Seq<int>,
    visited: Seq<int>,
    query: Seq<i16>,
    allowed: Option<Set<u32>>,
)
    requires
        index.wf(),
        index.exact_for(allowed),
        index.counts(stats, n, entered, visited, query, allowed),
    ensures
        stats.nodes_visited == visited.len(),
        stats.leaves_scanned == tree::leaf_count(index.contents.forest.nodes@, visited),
        stats.leaves_scanned <= stats.nodes_visited <= index.contents.forest.nodes@.len(),
        stats.partitions_visited <= stats.nodes_visited,
        stats.secondary_partitions <= stats.partitions_visited,
        index.settings.mode != crate::index::specialist::SearchMode::Exact
            ==> stats.partitions_visited <= stats.secondary_partitions + 1,
{
    let nodes = index.contents.forest.nodes@;
    assert(forall|k: int| 0 <= k < visited.len() ==> 0 <= #[trigger] visited[k] < nodes.len()) by {
        reveal(SpecialistIndex::counts);
    }
    assert(forall|k: int| 0 <= k < entered.len() ==> visited.contains(#[trigger] entered[k])) by {
        reveal(SpecialistIndex::counts);
    }
    assert(visited.no_duplicates() && entered.no_duplicates()) by {
        reveal(SpecialistIndex::counts);
    }
    assert(stats.nodes_visited == visited.len() % 0x1_0000_0000 && stats.leaves_scanned
        == tree::leaf_count(nodes, visited) % 0x1_0000_0000 && stats.partitions_visited
        == entered.len() && index.partitions_counted(stats, query, allowed)) by {
        reveal(SpecialistIndex::counts);
    }
    lemma_few_enough(visited, nodes.len() as int);
    lemma_no_more(entered, visited);
    lemma_leaf_count(nodes, visited);
}

} // verus!
