//! What holds of an index that was built from references.

use vstd::arithmetic::power2::pow2;
use vstd::prelude::*;

use crate::index::build;
use crate::index::build::grow;
use crate::index::build::split::KdSplitStrategy;
use crate::index::build::Reference;
use crate::index::knn;
use crate::index::knn::Lane;
use crate::index::knn::Neighbours;
use crate::index::knn::FAR;
use crate::index::layout::Contents;
use crate::index::partition_scheme;
use crate::index::partition_scheme::PartitionScheme;
use crate::index::predict::permitted;
use crate::index::specialist;
use crate::index::specialist::SearchMode;
use crate::index::specialist::SpecialistIndex;
use crate::index::specialist::KEY_LOOKUP_SIZE;
use crate::index::store;
use crate::index::tree;
use crate::index::tree::Node;
use crate::DIMS;
use crate::K;
use crate::PACKED_DIMS;

verus! {

/// The query agrees with the references in the dimensions that only pad a vector.
pub open spec fn padding_agrees(references: Seq<Reference>, query: Seq<i16>) -> bool {
    forall|x: int, d: int|
        0 <= x < references.len() && DIMS <= d < PACKED_DIMS ==> (
        #[trigger] references[x]).vector@[d] == #[trigger] query[d]
}

/// The index was built from the references.
pub open spec fn built_from(
    index: SpecialistIndex,
    references: Seq<Reference>,
    leaf_size: usize,
    strategy: KdSplitStrategy,
    scheme: PartitionScheme,
) -> bool {
    &&& index.wf()
    &&& build::is_index(references, leaf_size, strategy, scheme, index.contents)
}

/// Every partition can be found by its key, or all are searched anyway.
pub open spec fn keys_found(index: SpecialistIndex) -> bool {
    index.settings.mode == SearchMode::Exact || forall|k: int|
        0 <= k < index.contents.partitions@.len() ==> (
        #[trigger] index.contents.partitions@[k]).key < KEY_LOOKUP_SIZE
}

/// Opening the file that was built from references gives an index that was built from them.
pub proof fn law_opened_index_was_built(
    index: SpecialistIndex,
    bytes: Seq<u8>,
    references: Seq<Reference>,
    leaf_size: usize,
    strategy: KdSplitStrategy,
    scheme: PartitionScheme,
)
    requires
        build::holds_index(bytes, references, leaf_size, strategy, scheme),
        index.contents.stored_in(bytes),
        index.wf(),
    ensures
        built_from(index, references, leaf_size, strategy, scheme),
{
    let c = choose|c: Contents|
        #[trigger] c.stored_in(bytes) && build::is_index(
            references,
            leaf_size,
            strategy,
            scheme,
            c,
        );
    store::law_file_determines_contents(index.contents, c, bytes);
}

/// A file that was built from references can be opened.
pub proof fn law_built_file_opens(
    bytes: Seq<u8>,
    references: Seq<Reference>,
    leaf_size: usize,
    strategy: KdSplitStrategy,
    scheme: PartitionScheme,
    contents: Contents,
    mode: SearchMode,
)
    requires
        build::holds_index(bytes, references, leaf_size, strategy, scheme),
        contents.stored_in(bytes),
    ensures
        specialist::contents_fault(contents, mode) is None,
{
    let c = choose|c: Contents|
        #[trigger] c.stored_in(bytes) && build::is_index(
            references,
            leaf_size,
            strategy,
            scheme,
            c,
        );
    store::law_file_determines_contents(contents, c, bytes);
    let nodes = c.forest.nodes@;
    let lanes = c.forest.lanes@;
    assert forall|i: int| #[trigger]
        specialist::can_be_searched(contents.partitions@, mode, i) implies tree::has_tree(
        contents.forest.nodes@,
        contents.forest.lanes@,
        contents.partitions@[i].root as int,
    ) by {
        assert(build::part_good(
            references,
            scheme,
            c.amount_cuts@ + c.dow_cuts@,
            nodes,
            lanes,
            c.partitions@[i],
        ));
        lemma_good_tree(references, nodes, lanes, c.partitions@[i].root as int);
    }
}

/// Every node is as it should be.
spec fn all_good(references: Seq<Reference>, nodes: Seq<Node>, lanes: Seq<Lane>) -> bool {
    forall|j: int| 0 <= j < nodes.len() ==> #[trigger] grow::node_good(references, nodes, lanes, j)
}

/// Where every node is as it should be, each has a tree.
proof fn lemma_good_tree(
    references: Seq<Reference>,
    nodes: Seq<Node>,
    lanes: Seq<Lane>,
    i: int,
)
    requires
        all_good(references, nodes, lanes),
        0 <= i < nodes.len(),
    ensures
        tree::has_tree(nodes, lanes, i),
        tree::shallow(nodes, lanes, i),
        tree::covers(nodes, i) == grow::covers(nodes, i),
        grow::inhabited(nodes, i),
        forall|j: int| #[trigger] tree::family(nodes, i).contains(j) ==> 0 <= j < nodes.len(),
{
    assert forall|j: int| i <= j < nodes.len() implies #[trigger] grow::node_fits(
        nodes,
        lanes,
        j,
    ) by {
        assert(grow::node_good(references, nodes, lanes, j));
    }
    grow::lemma_grown(nodes, lanes, i);
    assert(grow::node_good(references, nodes, lanes, i));
    tree::lemma_more_levels(
        nodes,
        lanes,
        i,
        grow::height(nodes, i),
        tree::TREE_STACK_CAPACITY as nat,
    );
}

/// Where every node is as it should be, trees that share no reference share no node.
proof fn lemma_no_common_node(
    references: Seq<Reference>,
    nodes: Seq<Node>,
    lanes: Seq<Lane>,
    a: int,
    b: int,
)
    requires
        all_good(references, nodes, lanes),
        0 <= a < nodes.len(),
        0 <= b < nodes.len(),
        tree::covers(nodes, a).disjoint(tree::covers(nodes, b)),
    ensures
        tree::family(nodes, a).disjoint(tree::family(nodes, b)),
{
    lemma_good_tree(references, nodes, lanes, a);
    lemma_good_tree(references, nodes, lanes, b);
    assert forall|v: int| tree::family(nodes, a).contains(v) implies !tree::family(
        nodes,
        b,
    ).contains(v) by {
        if tree::family(nodes, b).contains(v) {
            tree::lemma_family_covers(nodes, lanes, a, nodes.len(), v);
            tree::lemma_family_covers(nodes, lanes, b, nodes.len(), v);
            lemma_good_tree(references, nodes, lanes, v);
            let p = choose|p: int| #[trigger] grow::covers(nodes, v).contains(p);
            assert(tree::covers(nodes, v).contains(p));
            assert(tree::covers(nodes, a).contains(p));
            assert(tree::covers(nodes, b).contains(p));
        }
    }
}

proof fn lemma_tree_orderly(
    references: Seq<Reference>,
    nodes: Seq<Node>,
    lanes: Seq<Lane>,
    i: int,
)
    requires
        all_good(references, nodes, lanes),
        0 <= i < nodes.len(),
    ensures
        tree::orderly(nodes, lanes, i),
{
    lemma_good_tree(references, nodes, lanes, i);
    assert forall|j: int| #[trigger]
        tree::family(nodes, i).contains(j) && !nodes[j].is_leaf() implies {
        &&& tree::covers(nodes, nodes[j].left as int).disjoint(
            tree::covers(nodes, nodes[j].right as int),
        )
        &&& tree::family(nodes, nodes[j].left as int).disjoint(
            tree::family(nodes, nodes[j].right as int),
        )
    } by {
        assert(grow::node_good(references, nodes, lanes, j));
        let (l, r) = (nodes[j].left as int, nodes[j].right as int);
        lemma_good_tree(references, nodes, lanes, l);
        lemma_good_tree(references, nodes, lanes, r);
        lemma_no_common_node(references, nodes, lanes, l, r);
    }
}

/// In an index that was built from references with two labels, the class bits are right.
proof fn lemma_classes_hold(
    references: Seq<Reference>,
    nodes: Seq<Node>,
    lanes: Seq<Lane>,
    kin: Set<int>,
)
    requires
        all_good(references, nodes, lanes),
        forall|i: int| #[trigger] kin.contains(i) ==> 0 <= i < nodes.len(),
        forall|x: int| 0 <= x < references.len() ==> (#[trigger] references[x]).label <= 1,
    ensures
        tree::classes_hold(nodes, lanes, kin),
{
    assert(1u8 << 0u8 == 1u8 && 1u8 << 1u8 == 2u8) by (bit_vector);
    assert forall|i: int, p: int|
        kin.contains(i) && #[trigger] tree::covers(nodes, i).contains(p) implies lanes[p].label <= 1
        && nodes[i].class_bits & (if lanes[p].label == 0 {
        1u8
    } else {
        2u8
    }) != 0 by {
        lemma_good_tree(references, nodes, lanes, i);
        assert(grow::node_good(references, nodes, lanes, i));
        assert(grow::covers(nodes, i).contains(p));
        assert(grow::belongs(references, nodes[i], lanes[p]));
        assert(references[lanes[p].ref_index as int].label <= 1);
    }
}

/// A search in an index that was built from references is exact, whatever the query and whatever
/// partitions it is restricted to.
pub proof fn law_built_index_is_exact(
    index: SpecialistIndex,
    references: Seq<Reference>,
    leaf_size: usize,
    strategy: KdSplitStrategy,
    scheme: PartitionScheme,
    allowed: Option<Set<u32>>,
)
    requires
        built_from(index, references, leaf_size, strategy, scheme),
    ensures
        index.exact_for(allowed),
{
    let nodes = index.contents.forest.nodes@;
    let lanes = index.contents.forest.lanes@;
    let parts = index.contents.partitions@;
    let cuts = index.contents.amount_cuts@ + index.contents.dow_cuts@;
    assert forall|i: int| #[trigger] index.takes_part(allowed, i) implies {
        &&& tree::orderly(nodes, lanes, index.root(i))
        &&& parts[i].min == nodes[index.root(i)].min
        &&& parts[i].max == nodes[index.root(i)].max
    } by {
        assert(build::part_good(references, scheme, cuts, nodes, lanes, parts[i]));
        lemma_tree_orderly(references, nodes, lanes, index.root(i));
    }
    assert forall|i: int, j: int| #[trigger]
        index.takes_part(allowed, i) && #[trigger] index.takes_part(allowed, j) && i != j implies {
        &&& index.below(i).disjoint(index.below(j))
        &&& index.tribe(i).disjoint(index.tribe(j))
    } by {
        assert(build::part_good(references, scheme, cuts, nodes, lanes, parts[i]));
        assert(build::part_good(references, scheme, cuts, nodes, lanes, parts[j]));
        assert(parts[i].key != parts[j].key) by {
            if i < j {
                assert(parts[i].key < parts[j].key);
            } else {
                assert(parts[j].key < parts[i].key);
            }
        }
        lemma_good_tree(references, nodes, lanes, index.root(i));
        lemma_good_tree(references, nodes, lanes, index.root(j));
        assert forall|p: int| index.below(i).contains(p) implies !index.below(j).contains(p) by {
            if index.below(j).contains(p) {
                assert(grow::covers(nodes, index.root(i)).contains(p));
                assert(grow::covers(nodes, index.root(j)).contains(p));
            }
        }
        assert(index.below(i).disjoint(index.below(j)));
        lemma_no_common_node(references, nodes, lanes, index.root(i), index.root(j));
    }
}

/// The references in the partitions that a search may look into.
pub open spec fn pool(
    references: Seq<Reference>,
    scheme: PartitionScheme,
    cuts: Seq<i16>,
    allowed: Option<Set<u32>>,
) -> Set<int> {
    Set::new(
        |x: int|
            0 <= x < references.len() && permitted(
                allowed,
                scheme.key(references[x].vector@, cuts) as u32,
            ),
    )
}

/// These are the query's nearest references in the pool: `K` of them, or all where there are fewer,
/// and no other one is nearer, over the first `dims` dimensions, than any of them is.
pub open spec fn are_nearest(
    references: Seq<Reference>,
    pool: Set<int>,
    query: Seq<i16>,
    chosen: Seq<int>,
    dims: nat,
) -> bool {
    &&& chosen.no_duplicates()
    &&& chosen.len() <= K
    &&& chosen.len() < K ==> forall|x: int| #[trigger] pool.contains(x) ==> chosen.contains(x)
    &&& forall|i: int| 0 <= i < chosen.len() ==> pool.contains(#[trigger] chosen[i])
    &&& forall|i: int, x: int|
        0 <= i < chosen.len() && pool.contains(x) && !chosen.contains(x) ==> knn::distance(
            query,
            references[#[trigger] chosen[i]].vector@,
        ) <= knn::partial_distance(query, (#[trigger] references[x]).vector@, dims)
}

/// The sum of the labels of the first `n` chosen references.
pub open spec fn label_total(references: Seq<Reference>, chosen: Seq<int>, n: nat) -> int
    decreases n,
{
    if n == 0 {
        0
    } else {
        label_total(references, chosen, (n - 1) as nat) + references[chosen[n - 1]].label
    }
}

/// `frauds` is the number of frauds among the query's nearest references in the pool.
pub open spec fn frauds_among_nearest(
    frauds: int,
    references: Seq<Reference>,
    pool: Set<int>,
    query: Seq<i16>,
    dims: nat,
) -> bool {
    exists|chosen: Seq<int>|
        #[trigger] are_nearest(references, pool, query, chosen, dims) && frauds == label_total(
            references,
            chosen,
            chosen.len(),
        )
}

/// Where the padding agrees, what is nearest over the stored dimensions is nearest.
pub proof fn law_agreeing_padding_does_not_count(
    references: Seq<Reference>,
    pool: Set<int>,
    query: Seq<i16>,
    frauds: int,
)
    requires
        padding_agrees(references, query),
        forall|x: int| #[trigger] pool.contains(x) ==> 0 <= x < references.len(),
        frauds_among_nearest(frauds, references, pool, query, PACKED_DIMS as nat),
    ensures
        frauds_among_nearest(frauds, references, pool, query, DIMS as nat),
{
    let chosen = choose|chosen: Seq<int>|
        #[trigger] are_nearest(references, pool, query, chosen, PACKED_DIMS as nat) && frauds
            == label_total(references, chosen, chosen.len());
    assert forall|i: int, x: int|
        0 <= i < chosen.len() && pool.contains(x) && !chosen.contains(x) implies knn::distance(
        query,
        references[#[trigger] chosen[i]].vector@,
    ) <= knn::partial_distance(query, (#[trigger] references[x]).vector@, DIMS as nat) by {
        assert forall|d: int| DIMS <= d < PACKED_DIMS implies #[trigger] query[d]
            == references[x].vector@[d] by {
            assert(references[x].vector@[d] == query[d]);
        }
        knn::lemma_padding_agrees(query, references[x].vector@);
    }
    assert(are_nearest(references, pool, query, chosen, DIMS as nat));
}

proof fn lemma_same_distance(query: Seq<i16>, a: Seq<i16>, b: Seq<i16>, n: nat)
    requires
        forall|d: int| 0 <= d < n ==> #[trigger] a[d] == b[d],
    ensures
        knn::partial_distance(query, a, n) == knn::partial_distance(query, b, n),
    decreases n,
{
    if n > 0 {
        lemma_same_distance(query, a, b, (n - 1) as nat);
    }
}

/// The places are those of the references in the pool, each once.
spec fn one_place_each(
    references: Seq<Reference>,
    pool: Set<int>,
    lanes: Seq<Lane>,
    places: Set<int>,
) -> bool {
    &&& forall|p: int| #[trigger]
        places.contains(p) ==> 0 <= p < lanes.len() && grow::holds_reference(lanes[p], references)
            && pool.contains(lanes[p].ref_index as int)
    &&& forall|p: int, q: int| #[trigger]
        places.contains(p) && #[trigger] places.contains(q) && p != q ==> lanes[p].ref_index
            != lanes[q].ref_index
    &&& forall|x: int| #[trigger] pool.contains(x) ==> has_place(lanes, places, x)
}

spec fn has_place(lanes: Seq<Lane>, places: Set<int>, x: int) -> bool {
    exists|p: int| #[trigger] places.contains(p) && lanes[p].ref_index == x
}

/// The nearest candidates among the places of the references are the nearest references.
proof fn lemma_nearest_references(
    references: Seq<Reference>,
    pool: Set<int>,
    lanes: Seq<Lane>,
    reach: Seq<int>,
    places: Set<int>,
    query: Seq<i16>,
    m: Neighbours,
)
    requires
        one_place_each(references, pool, lanes, places),
        knn::reach_holds(query, lanes, reach),
        forall|p: int| #[trigger]
            places.contains(p) ==> reach[p] <= knn::packed_distance(
                query,
                references[lanes[p].ref_index as int].vector@,
            ),
        m.nearest(query, lanes, reach, places),
    ensures
        frauds_among_nearest(m.frauds(), references, pool, query, PACKED_DIMS as nat),
{
    assert forall|p: int| #[trigger] places.contains(p) implies knn::distance(
        query,
        lanes[p].vector@,
    ) == knn::distance(query, references[lanes[p].ref_index as int].vector@) by {
        lemma_same_distance(
            query,
            lanes[p].vector@,
            references[lanes[p].ref_index as int].vector@,
            DIMS as nat,
        );
    }
    assert(m.candidate_holds(0, query, lanes, places));
    assert(m.candidate_holds(1, query, lanes, places));
    assert(m.candidate_holds(2, query, lanes, places));
    assert(m.candidate_holds(3, query, lanes, places));
    assert(m.candidate_holds(4, query, lanes, places));
    assert forall|i: int| 0 <= i < K && m.places[i] != -1 implies m.dists[i] < FAR by {
        assert(m.candidate_holds(i, query, lanes, places));
        knn::lemma_distance_bounds(query, lanes[m.places[i]].vector@);
    }
    let c: nat = if m.places[0] == -1 {
        0
    } else if m.places[1] == -1 {
        1
    } else if m.places[2] == -1 {
        2
    } else if m.places[3] == -1 {
        3
    } else if m.places[4] == -1 {
        4
    } else {
        5
    };
    assert forall|i: int| 0 <= i < K implies ((i < c) <==> #[trigger] m.places[i] != -1) by {
        assert(m.candidate_holds(i, query, lanes, places));
        if i >= c {
            assert(m.places[c as int] == -1);
            assert(m.dists[c as int] == FAR);
            assert(m.dists[c as int] <= m.dists[i]);
        }
    }
    let chosen = Seq::new(c, |i: int| lanes[m.places[i]].ref_index as int);
    assert forall|i: int| 0 <= i < c implies {
        &&& places.contains(m.places[i])
        &&& pool.contains(#[trigger] chosen[i])
        &&& m.dists[i] == knn::distance(query, references[chosen[i]].vector@)
        &&& m.labels[i] == references[chosen[i]].label
    } by {
        assert(m.candidate_holds(i, query, lanes, places));
        assert(places.contains(m.places[i]));
    }
    assert(chosen.no_duplicates()) by {
        assert forall|i: int, j: int|
            0 <= i < chosen.len() && 0 <= j < chosen.len() && i != j implies chosen[i]
            != chosen[j] by {
            assert(places.contains(m.places[i]) && places.contains(m.places[j])) by {
                assert(pool.contains(chosen[i]) && pool.contains(chosen[j]));
            }
            if i < j {
                assert(m.places[i] != m.places[j]);
            } else {
                assert(m.places[j] != m.places[i]);
            }
        }
    }
    assert forall|x: int| #[trigger] pool.contains(x) && !chosen.contains(x) implies m.limit() < FAR
        && knn::packed_distance(query, references[x].vector@) >= m.limit() by {
        assert(has_place(lanes, places, x));
        let p = choose|p: int| #[trigger] places.contains(p) && lanes[p].ref_index == x;
        if m.has(p) {
            let i = choose|i: int| 0 <= i < K && #[trigger] m.places[i] == p;
            assert(i < c);
            assert(chosen[i] == x);
        }
        assert(reach[p] < FAR);
    }
    if c < K {
        assert(m.places[K - 1] == -1);
        assert(m.limit() == FAR);
    }
    assert forall|i: int, x: int|
        0 <= i < chosen.len() && pool.contains(x) && !chosen.contains(x) implies knn::distance(
        query,
        references[#[trigger] chosen[i]].vector@,
    ) <= knn::partial_distance(
        query,
        (#[trigger] references[x]).vector@,
        PACKED_DIMS as nat,
    ) by {
        assert(pool.contains(chosen[i]));
        assert(m.dists[i] <= m.dists[K - 1]);
    }
    assert(are_nearest(references, pool, query, chosen, PACKED_DIMS as nat));
    assert(m.frauds() == label_total(references, chosen, c)) by {
        reveal_with_fuel(label_total, 6);
        assert(c > 0 ==> pool.contains(chosen[0]));
        assert(c > 1 ==> pool.contains(chosen[1]));
        assert(c > 2 ==> pool.contains(chosen[2]));
        assert(c > 3 ==> pool.contains(chosen[3]));
        assert(c > 4 ==> pool.contains(chosen[4]));
        assert(c > 0 ==> m.labels[0] == references[chosen[0]].label);
        assert(c > 1 ==> m.labels[1] == references[chosen[1]].label);
        assert(c > 2 ==> m.labels[2] == references[chosen[2]].label);
        assert(c > 3 ==> m.labels[3] == references[chosen[3]].label);
        assert(c > 4 ==> m.labels[4] == references[chosen[4]].label);
    }
}

/// The pool of a search in an index that was built from references.
pub open spec fn pool_of(
    index: SpecialistIndex,
    references: Seq<Reference>,
    scheme: PartitionScheme,
    allowed: Option<Set<u32>>,
) -> Set<int> {
    pool(
        references,
        scheme,
        index.contents.amount_cuts@ + index.contents.dow_cuts@,
        allowed,
    )
}

/// In an index that was built from references, the search looks among all of them that are in
/// permitted partitions.
proof fn lemma_scope_is_pool(
    index: SpecialistIndex,
    references: Seq<Reference>,
    leaf_size: usize,
    strategy: KdSplitStrategy,
    scheme: PartitionScheme,
    allowed: Option<Set<u32>>,
)
    requires
        built_from(index, references, leaf_size, strategy, scheme),
        keys_found(index),
    ensures
        one_place_each(
            references,
            pool_of(index, references, scheme, allowed),
            index.contents.forest.lanes@,
            index.scope(allowed),
        ),
{
    let nodes = index.contents.forest.nodes@;
    let lanes = index.contents.forest.lanes@;
    let parts = index.contents.partitions@;
    let cuts = index.contents.amount_cuts@ + index.contents.dow_cuts@;
    let scope = index.scope(allowed);
    let all = pool_of(index, references, scheme, allowed);
    assert forall|i: int| 0 <= i < parts.len() && permitted(allowed, parts[i].key) implies #[trigger] index.takes_part(
        allowed,
        i,
    ) by {
        assert forall|k: int, l: int| 0 <= k < l < parts.len() implies parts[k].key
            != parts[l].key by {
            assert(parts[k].key < parts[l].key);
        }
        specialist::lemma_partition_of_distinct(parts, i);
        assert(index.settings.mode == SearchMode::Exact || parts[i].key < KEY_LOOKUP_SIZE);
    }
    assert forall|i: int, p: int| #[trigger]
        index.takes_part(allowed, i) && #[trigger] index.below(i).contains(p) implies {
        &&& 0 <= p < lanes.len()
        &&& grow::holds_reference(lanes[p], references)
        &&& scheme.key(references[lanes[p].ref_index as int].vector@, cuts) == parts[i].key
        &&& grow::covers(nodes, index.root(i)).contains(p)
    } by {
        assert(build::part_good(references, scheme, cuts, nodes, lanes, parts[i]));
        let root = index.root(i);
        lemma_good_tree(references, nodes, lanes, root);
        assert(grow::node_good(references, nodes, lanes, root));
        assert(grow::covers(nodes, root).contains(p));
        assert(grow::belongs(references, nodes[root], lanes[p]));
        tree::lemma_covers_in_range(nodes, lanes, root);
    }
    assert forall|p: int| #[trigger] scope.contains(p) implies 0 <= p < lanes.len()
        && grow::holds_reference(lanes[p], references) && all.contains(
        lanes[p].ref_index as int,
    ) by {
        let i = choose|i: int|
            index.participants(allowed).contains(i) && #[trigger] index.below(i).contains(p);
        assert(index.takes_part(allowed, i));
    }
    assert forall|p: int, q: int| #[trigger]
        scope.contains(p) && #[trigger] scope.contains(q) && p != q implies lanes[p].ref_index
        != lanes[q].ref_index by {
        let i = choose|i: int|
            index.participants(allowed).contains(i) && #[trigger] index.below(i).contains(p);
        let j = choose|j: int|
            index.participants(allowed).contains(j) && #[trigger] index.below(j).contains(q);
        assert(index.takes_part(allowed, i) && index.takes_part(allowed, j));
        assert(build::part_good(references, scheme, cuts, nodes, lanes, parts[i]));
        assert(grow::covers(nodes, index.root(i)).contains(p));
        assert(grow::covers(nodes, index.root(j)).contains(q));
        if i < j {
            assert(parts[i].key < parts[j].key);
        } else if j < i {
            assert(parts[j].key < parts[i].key);
        }
    }
    assert forall|x: int| #[trigger] all.contains(x) implies has_place(lanes, scope, x) by {
        assert(build::placed(nodes, lanes, parts, x));
        let (k, p) = choose|k: int, p: int|
            0 <= k < parts.len() && #[trigger] grow::covers(
                nodes,
                parts[k].root as int,
            ).contains(p) && lanes[p].ref_index == x;
        assert(build::part_good(references, scheme, cuts, nodes, lanes, parts[k]));
        assert(scheme.key(references[x].vector@, cuts) == parts[k].key);
        assert(index.takes_part(allowed, k));
        lemma_good_tree(references, nodes, lanes, index.root(k));
        assert(index.participants(allowed).contains(k));
        assert(index.below(k).contains(p));
        assert(scope.contains(p));
    }
}

/// In an index that was built from references, a search takes none of them to be farther away than it
/// is over the stored dimensions.
proof fn lemma_reach_of_references(
    index: SpecialistIndex,
    references: Seq<Reference>,
    leaf_size: usize,
    strategy: KdSplitStrategy,
    scheme: PartitionScheme,
    query: Seq<i16>,
    allowed: Option<Set<u32>>,
    p: int,
)
    requires
        built_from(index, references, leaf_size, strategy, scheme),
        0 <= p < index.contents.forest.lanes@.len(),
        grow::holds_reference(index.contents.forest.lanes@[p], references),
    ensures
        index.reach(query, allowed)[p] <= knn::packed_distance(
            query,
            references[index.contents.forest.lanes@[p].ref_index as int].vector@,
        ),
{
    let nodes = index.contents.forest.nodes@;
    let lanes = index.contents.forest.lanes@;
    let kin = index.kin(allowed);
    let vector = references[lanes[p].ref_index as int].vector@;
    lemma_same_distance(query, lanes[p].vector@, vector, DIMS as nat);
    knn::lemma_packed_distance(query, vector);
    lemma_kin_in_range(index, references, leaf_size, strategy, scheme, allowed);
    assert forall|i: int|
        kin.contains(i) && #[trigger] tree::covers(nodes, i).contains(p) implies knn::inside(
        vector,
        nodes[i].min@,
        nodes[i].max@,
    ) by {
        lemma_good_tree(references, nodes, lanes, i);
        assert(grow::node_good(references, nodes, lanes, i));
        assert(grow::covers(nodes, i).contains(p));
        assert(grow::belongs(references, nodes[i], lanes[p]));
        assert(grow::boxed(vector, nodes[i].min@, nodes[i].max@));
    }
    tree::lemma_reach_bounded(nodes, lanes, query, kin, p, vector, nodes.len());
}

proof fn lemma_kin_in_range(
    index: SpecialistIndex,
    references: Seq<Reference>,
    leaf_size: usize,
    strategy: KdSplitStrategy,
    scheme: PartitionScheme,
    allowed: Option<Set<u32>>,
)
    requires
        built_from(index, references, leaf_size, strategy, scheme),
    ensures
        forall|j: int| #[trigger]
            index.kin(allowed).contains(j) ==> 0 <= j < index.contents.forest.nodes@.len(),
{
    let nodes = index.contents.forest.nodes@;
    let lanes = index.contents.forest.lanes@;
    let parts = index.contents.partitions@;
    let cuts = index.contents.amount_cuts@ + index.contents.dow_cuts@;
    assert forall|j: int| #[trigger] index.kin(allowed).contains(j) implies 0 <= j < nodes.len() by {
        let i = choose|i: int|
            index.takes_part(allowed, i) && #[trigger] index.tribe(i).contains(j);
        assert(build::part_good(references, scheme, cuts, nodes, lanes, parts[i]));
        lemma_good_tree(references, nodes, lanes, index.root(i));
    }
}

/// The class bits of an index that was built from references with two labels say which labels there
/// are.
pub proof fn law_built_index_is_classed(
    index: SpecialistIndex,
    references: Seq<Reference>,
    leaf_size: usize,
    strategy: KdSplitStrategy,
    scheme: PartitionScheme,
    allowed: Option<Set<u32>>,
)
    requires
        built_from(index, references, leaf_size, strategy, scheme),
        forall|x: int| 0 <= x < references.len() ==> (#[trigger] references[x]).label <= 1,
    ensures
        index.classed(allowed),
{
    lemma_kin_in_range(index, references, leaf_size, strategy, scheme, allowed);
    lemma_classes_hold(
        references,
        index.contents.forest.nodes@,
        index.contents.forest.lanes@,
        index.kin(allowed),
    );
}

proof fn lemma_counted_references(
    index: SpecialistIndex,
    references: Seq<Reference>,
    leaf_size: usize,
    strategy: KdSplitStrategy,
    scheme: PartitionScheme,
    query: Seq<i16>,
    allowed: Option<Set<u32>>,
    m: Neighbours,
)
    requires
        built_from(index, references, leaf_size, strategy, scheme),
        keys_found(index),
        m.nearest(
            query,
            index.contents.forest.lanes@,
            index.reach(query, allowed),
            index.scope(allowed),
        ),
    ensures
        frauds_among_nearest(
            m.frauds(),
            references,
            pool_of(index, references, scheme, allowed),
            query,
            PACKED_DIMS as nat,
        ),
{
    let nodes = index.contents.forest.nodes@;
    let lanes = index.contents.forest.lanes@;
    let reach = index.reach(query, allowed);
    lemma_scope_is_pool(index, references, leaf_size, strategy, scheme, allowed);
    tree::lemma_reach_holds(nodes, lanes, query, index.kin(allowed));
    assert forall|p: int| #[trigger] index.scope(allowed).contains(p) implies reach[p]
        <= knn::packed_distance(query, references[lanes[p].ref_index as int].vector@) by {
        lemma_reach_of_references(
            index,
            references,
            leaf_size,
            strategy,
            scheme,
            query,
            allowed,
            p,
        );
    }
    lemma_nearest_references(
        references,
        pool_of(index, references, scheme, allowed),
        lanes,
        reach,
        index.scope(allowed),
        query,
        m,
    );
}

/// The count of a search in an index that was built from references is the number of frauds among
/// the query's nearest references in the permitted partitions, unless the search ended early: no
/// other of these references is nearer, over the stored dimensions, than those that are counted.
pub proof fn law_search_counts_nearest_references(
    index: SpecialistIndex,
    references: Seq<Reference>,
    leaf_size: usize,
    strategy: KdSplitStrategy,
    scheme: PartitionScheme,
    query: Seq<i16>,
    allowed: Option<Set<u32>>,
    n: Neighbours,
)
    requires
        built_from(index, references, leaf_size, strategy, scheme),
        keys_found(index),
        index.finds(n, query, allowed),
        !index.ended_early(n, allowed),
    ensures
        frauds_among_nearest(
            n.frauds(),
            references,
            pool_of(index, references, scheme, allowed),
            query,
            PACKED_DIMS as nat,
        ),
{
    law_built_index_is_exact(index, references, leaf_size, strategy, scheme, allowed);
    lemma_counted_references(
        index,
        references,
        leaf_size,
        strategy,
        scheme,
        query,
        allowed,
        n,
    );
}

/// The keys of these partitions.
pub open spec fn keys_in(index: SpecialistIndex, seen: Set<int>) -> Set<u32> {
    Set::new(
        |key: u32|
            exists|i: int| #[trigger] seen.contains(i) && index.contents.partitions@[i].key == key,
    )
}

/// `frauds` is the number of frauds among the query's nearest references in these partitions.
pub open spec fn counts_in(
    index: SpecialistIndex,
    references: Seq<Reference>,
    scheme: PartitionScheme,
    query: Seq<i16>,
    seen: Set<int>,
    frauds: int,
) -> bool {
    frauds_among_nearest(
        frauds,
        references,
        pool_of(index, references, scheme, Some(keys_in(index, seen))),
        query,
        PACKED_DIMS as nat,
    )
}

proof fn lemma_counted_in(
    index: SpecialistIndex,
    references: Seq<Reference>,
    leaf_size: usize,
    strategy: KdSplitStrategy,
    scheme: PartitionScheme,
    query: Seq<i16>,
    allowed: Option<Set<u32>>,
    seen: Set<int>,
    m: Neighbours,
)
    requires
        built_from(index, references, leaf_size, strategy, scheme),
        keys_found(index),
        seen.subset_of(index.participants(allowed)),
        m.nearest(
            query,
            index.contents.forest.lanes@,
            index.reach(query, allowed),
            index.places_in(seen),
        ),
    ensures
        counts_in(index, references, scheme, query, seen, m.frauds()),
{
    let nodes = index.contents.forest.nodes@;
    let lanes = index.contents.forest.lanes@;
    let parts = index.contents.partitions@;
    let reach = index.reach(query, allowed);
    let keys = keys_in(index, seen);
    let places = index.places_in(seen);
    assert(index.participants(Some(keys)) =~= seen) by {
        assert forall|i: int| index.participants(Some(keys)).contains(i) <==> seen.contains(i) by {
            if seen.contains(i) {
                assert(index.participants(allowed).contains(i));
                assert(keys.contains(parts[i].key));
            }
            if index.participants(Some(keys)).contains(i) {
                let j = choose|j: int| #[trigger] seen.contains(j) && parts[j].key == parts[i].key;
                assert(index.participants(allowed).contains(j));
                if i < j {
                    assert(parts[i].key < parts[j].key);
                } else if j < i {
                    assert(parts[j].key < parts[i].key);
                }
            }
        }
    }
    assert(index.scope(Some(keys)) == places);
    lemma_scope_is_pool(index, references, leaf_size, strategy, scheme, Some(keys));
    tree::lemma_reach_holds(nodes, lanes, query, index.kin(allowed));
    assert forall|p: int| #[trigger] places.contains(p) implies reach[p] <= knn::packed_distance(
        query,
        references[lanes[p].ref_index as int].vector@,
    ) by {
        lemma_reach_of_references(
            index,
            references,
            leaf_size,
            strategy,
            scheme,
            query,
            allowed,
            p,
        );
    }
    lemma_nearest_references(
        references,
        pool_of(index, references, scheme, Some(keys)),
        lanes,
        reach,
        places,
        query,
        m,
    );
}

/// Whether it ended early or not, a search in an index that was built from references counts the
/// frauds among the query's nearest references in the partitions that it has behind it: the query's
/// own, where it is searched first, and all that take part, unless it ended early.
pub proof fn law_search_counts_nearest_behind_it(
    index: SpecialistIndex,
    references: Seq<Reference>,
    leaf_size: usize,
    strategy: KdSplitStrategy,
    scheme: PartitionScheme,
    query: Seq<i16>,
    allowed: Option<Set<u32>>,
    n: Neighbours,
)
    requires
        built_from(index, references, leaf_size, strategy, scheme),
        keys_found(index),
        index.finds(n, query, allowed),
    ensures
        exists|seen: Set<int>|
            {
                &&& #[trigger] counts_in(index, references, scheme, query, seen, n.frauds())
                &&& index.is_enough(n, allowed, seen)
                &&& index.covers_own(query, allowed, seen)
            },
{
    law_built_index_is_exact(index, references, leaf_size, strategy, scheme, allowed);
    let seen = choose|seen: Set<int>|
        {
            &&& n.nearest(
                query,
                index.contents.forest.lanes@,
                index.reach(query, allowed),
                #[trigger] index.places_in(seen),
            )
            &&& index.is_enough(n, allowed, seen)
            &&& index.covers_own(query, allowed, seen)
        };
    lemma_counted_in(
        index,
        references,
        leaf_size,
        strategy,
        scheme,
        query,
        allowed,
        seen,
        n,
    );
}

/// The same of the count that is answered, also where subtrees are set aside.
pub proof fn law_answer_counts_nearest_behind_it(
    index: SpecialistIndex,
    references: Seq<Reference>,
    leaf_size: usize,
    strategy: KdSplitStrategy,
    scheme: PartitionScheme,
    query: Seq<i16>,
    n: Neighbours,
)
    requires
        built_from(index, references, leaf_size, strategy, scheme),
        keys_found(index),
        index.defers() ==> forall|x: int|
            0 <= x < references.len() ==> (#[trigger] references[x]).label <= 1,
        index.decides(n, query, None),
    ensures
        exists|seen: Set<int>|
            {
                &&& #[trigger] counts_in(index, references, scheme, query, seen, n.frauds())
                &&& index.is_enough(n, None, seen)
                &&& index.covers_own(query, None, seen)
            },
{
    let lanes = index.contents.forest.lanes@;
    let reach = index.reach(query, None);
    law_built_index_is_exact(index, references, leaf_size, strategy, scheme, None);
    if index.defers() {
        law_built_index_is_classed(index, references, leaf_size, strategy, scheme, None);
    }
    let seen = choose|seen: Set<int>|
        {
            &&& knn::counts_nearest(
                n.frauds(),
                query,
                lanes,
                reach,
                #[trigger] index.places_in(seen),
            )
            &&& index.is_enough(n, None, seen)
            &&& index.covers_own(query, None, seen)
        };
    let m = choose|m: Neighbours| #[trigger]
        m.nearest(query, lanes, reach, index.places_in(seen)) && m.frauds() == n.frauds();
    lemma_counted_in(
        index,
        references,
        leaf_size,
        strategy,
        scheme,
        query,
        None,
        seen,
        m,
    );
}

/// Setting subtrees aside changes no count: a search that does so finds the number of frauds among
/// the query's nearest references too.
pub proof fn law_deferral_does_not_change_the_count(
    index: SpecialistIndex,
    references: Seq<Reference>,
    leaf_size: usize,
    strategy: KdSplitStrategy,
    scheme: PartitionScheme,
    query: Seq<i16>,
    n: Neighbours,
)
    requires
        built_from(index, references, leaf_size, strategy, scheme),
        keys_found(index),
        index.defers() ==> forall|x: int|
            0 <= x < references.len() ==> (#[trigger] references[x]).label <= 1,
        index.decides(n, query, None),
        !index.ended_early(n, None),
    ensures
        frauds_among_nearest(
            n.frauds(),
            references,
            pool_of(index, references, scheme, None),
            query,
            PACKED_DIMS as nat,
        ),
{
    let lanes = index.contents.forest.lanes@;
    law_built_index_is_exact(index, references, leaf_size, strategy, scheme, None);
    if index.defers() {
        law_built_index_is_classed(index, references, leaf_size, strategy, scheme, None);
    }
    let m = choose|m: Neighbours| #[trigger]
        m.nearest(query, lanes, index.reach(query, None), index.scope(None)) && m.frauds()
            == n.frauds();
    lemma_counted_references(
        index,
        references,
        leaf_size,
        strategy,
        scheme,
        query,
        None,
        m,
    );
}

/// Fewer than `K` references are nearer to the query than `bound`.
pub open spec fn few_are_nearer(references: Seq<Reference>, query: Seq<i16>, bound: int) -> bool {
    forall|chosen: Seq<int>|
        !(#[trigger] chosen.no_duplicates() && chosen.len() == K && are_nearer(
            references,
            query,
            chosen,
            bound,
        ))
}

/// All of these references are nearer to the query than `bound`.
pub open spec fn are_nearer(
    references: Seq<Reference>,
    query: Seq<i16>,
    chosen: Seq<int>,
    bound: int,
) -> bool {
    forall|i: int|
        0 <= i < chosen.len() ==> 0 <= #[trigger] chosen[i] < references.len() && knn::distance(
            query,
            references[chosen[i]].vector@,
        ) < bound
}

/// Candidates that are all nearer than a bound are `K` references that are.
proof fn lemma_near_candidates(
    index: SpecialistIndex,
    references: Seq<Reference>,
    leaf_size: usize,
    strategy: KdSplitStrategy,
    scheme: PartitionScheme,
    query: Seq<i16>,
    n: Neighbours,
    bound: int,
)
    requires
        built_from(index, references, leaf_size, strategy, scheme),
        keys_found(index),
        n.sound(query, index.contents.forest.lanes@, index.scope(None)),
        n.apart(),
        bound <= knn::FAR,
        few_are_nearer(references, query, bound),
    ensures
        n.limit() >= bound,
{
    let lanes = index.contents.forest.lanes@;
    let scope = index.scope(None);
    if n.limit() < bound {
        lemma_scope_is_pool(index, references, leaf_size, strategy, scheme, None);
        let chosen = Seq::new(K as nat, |i: int| lanes[n.places[i]].ref_index as int);
        assert forall|i: int| 0 <= i < K implies n.places[i] != -1 && scope.contains(n.places[i])
            && 0 <= #[trigger] chosen[i] < references.len() && knn::distance(
            query,
            references[chosen[i]].vector@,
        ) < bound by {
            assert(n.candidate_holds(i, query, lanes, scope));
            assert(n.dists[i] <= n.dists[K - 1]);
            assert(grow::holds_reference(lanes[n.places[i]], references));
            lemma_same_distance(
                query,
                lanes[n.places[i]].vector@,
                references[chosen[i]].vector@,
                DIMS as nat,
            );
        }
        assert(are_nearer(references, query, chosen, bound));
        assert forall|i: int, j: int| 0 <= i < K && 0 <= j < K && i != j implies chosen[i]
            != chosen[j] by {
            assert(0 <= chosen[i] && 0 <= chosen[j]);
            let (a, b) = (n.places[i], n.places[j]);
            assert(scope.contains(a) && scope.contains(b));
            assert(a != b);
        }
        assert(chosen.no_duplicates());
    }
}

/// The count of a search is the number of frauds among the query's nearest references in the
/// permitted partitions where it is restricted or exact, no positive threshold is set, or its
/// candidates are not all nearer than the one that is set.
pub proof fn law_search_counts_all_from_the_setting_on(
    index: SpecialistIndex,
    references: Seq<Reference>,
    leaf_size: usize,
    strategy: KdSplitStrategy,
    scheme: PartitionScheme,
    query: Seq<i16>,
    allowed: Option<Set<u32>>,
    n: Neighbours,
)
    requires
        built_from(index, references, leaf_size, strategy, scheme),
        keys_found(index),
        index.finds(n, query, allowed),
        allowed is Some || index.settings.mode == SearchMode::Exact
            || index.settings.early_exit_threshold <= 0 || n.limit()
            >= index.settings.early_exit_threshold,
    ensures
        frauds_among_nearest(
            n.frauds(),
            references,
            pool_of(index, references, scheme, allowed),
            query,
            PACKED_DIMS as nat,
        ),
{
    law_search_counts_nearest_references(
        index,
        references,
        leaf_size,
        strategy,
        scheme,
        query,
        allowed,
        n,
    );
}

/// The same of the count that is answered, also where subtrees are set aside.
pub proof fn law_answer_counts_all_from_the_setting_on(
    index: SpecialistIndex,
    references: Seq<Reference>,
    leaf_size: usize,
    strategy: KdSplitStrategy,
    scheme: PartitionScheme,
    query: Seq<i16>,
    n: Neighbours,
)
    requires
        built_from(index, references, leaf_size, strategy, scheme),
        keys_found(index),
        index.settings.label_defer && index.settings.mode != SearchMode::Exact ==> forall|x: int|
            0 <= x < references.len() ==> (#[trigger] references[x]).label <= 1,
        index.decides(n, query, None),
        index.settings.mode == SearchMode::Exact || index.settings.early_exit_threshold <= 0
            || n.limit() >= index.settings.early_exit_threshold,
    ensures
        frauds_among_nearest(
            n.frauds(),
            references,
            pool_of(index, references, scheme, None),
            query,
            PACKED_DIMS as nat,
        ),
{
    law_deferral_does_not_change_the_count(
        index,
        references,
        leaf_size,
        strategy,
        scheme,
        query,
        n,
    );
}

/// Where fewer than `K` references are nearer to the query than the threshold that is set, a search is
/// whole: its count is the number of frauds among the query's nearest of all references.
pub proof fn law_search_counts_all_where_few_are_near(
    index: SpecialistIndex,
    references: Seq<Reference>,
    leaf_size: usize,
    strategy: KdSplitStrategy,
    scheme: PartitionScheme,
    query: Seq<i16>,
    n: Neighbours,
)
    requires
        built_from(index, references, leaf_size, strategy, scheme),
        keys_found(index),
        index.finds(n, query, None),
        few_are_nearer(references, query, index.settings.early_exit_threshold as int),
    ensures
        frauds_among_nearest(
            n.frauds(),
            references,
            pool_of(index, references, scheme, None),
            query,
            PACKED_DIMS as nat,
        ),
        forall|x: int|
            0 <= x < references.len() ==> #[trigger] pool_of(
                index,
                references,
                scheme,
                None,
            ).contains(x),
{
    law_built_index_is_exact(index, references, leaf_size, strategy, scheme, None);
    assert(n.apart());
    lemma_near_candidates(
        index,
        references,
        leaf_size,
        strategy,
        scheme,
        query,
        n,
        index.settings.early_exit_threshold as int,
    );
    law_search_counts_all_from_the_setting_on(
        index,
        references,
        leaf_size,
        strategy,
        scheme,
        query,
        None,
        n,
    );
}

/// The same of the count that is answered, also where subtrees are set aside.
pub proof fn law_answer_counts_all_where_few_are_near(
    index: SpecialistIndex,
    references: Seq<Reference>,
    leaf_size: usize,
    strategy: KdSplitStrategy,
    scheme: PartitionScheme,
    query: Seq<i16>,
    n: Neighbours,
)
    requires
        built_from(index, references, leaf_size, strategy, scheme),
        keys_found(index),
        index.settings.label_defer && index.settings.mode != SearchMode::Exact ==> forall|x: int|
            0 <= x < references.len() ==> (#[trigger] references[x]).label <= 1,
        index.decides(n, query, None),
        few_are_nearer(references, query, index.settings.early_exit_threshold as int),
    ensures
        frauds_among_nearest(
            n.frauds(),
            references,
            pool_of(index, references, scheme, None),
            query,
            PACKED_DIMS as nat,
        ),
        forall|x: int|
            0 <= x < references.len() ==> #[trigger] pool_of(
                index,
                references,
                scheme,
                None,
            ).contains(x),
{
    law_built_index_is_exact(index, references, leaf_size, strategy, scheme, None);
    lemma_near_candidates(
        index,
        references,
        leaf_size,
        strategy,
        scheme,
        query,
        n,
        index.settings.early_exit_threshold as int,
    );
    law_answer_counts_all_from_the_setting_on(
        index,
        references,
        leaf_size,
        strategy,
        scheme,
        query,
        n,
    );
}

/// Partition keys stay below the size of the lookup table where the buckets of amounts and week days
/// take no more bits than it has.
pub proof fn law_keys_fit_the_table(scheme: PartitionScheme, vector: Seq<i16>, cuts: Seq<i16>)
    requires
        scheme.amount_cut_count + scheme.dow_cut_count <= cuts.len(),
        scheme.walks_tree() ==> scheme.tree_depth <= partition_scheme::MAX_TREE_DEPTH,
        !scheme.walks_tree() ==> (scheme.dow_cut_count + 1) * pow2(
            partition_scheme::width_of(scheme.amount_cut_count + 1),
        ) <= KEY_LOOKUP_SIZE,
    ensures
        0 <= scheme.key(vector, cuts) < KEY_LOOKUP_SIZE,
{
    if scheme.walks_tree() {
        let depth = scheme.tree_depth as nat;
        partition_scheme::law_tree_key_in_range(vector, scheme.tree_predicates@, depth);
        vstd::arithmetic::power2::lemma2_to64();
        partition_scheme::lemma_pow2_grows(depth, 10);
    } else {
        let a = scheme.amount_cut_count as int;
        let d = scheme.dow_cut_count as int;
        let amounts = cuts.subrange(0, a);
        let dows = cuts.subrange(a, a + d);
        partition_scheme::lemma_width_exists(a + 1);
        partition_scheme::lemma_cuts_below_bounded(vector[0], amounts);
        partition_scheme::lemma_cuts_below_bounded(vector[4], dows);
        let p = pow2(partition_scheme::width_of(a + 1)) as int;
        let x = partition_scheme::cuts_below(vector[0], amounts) as int;
        let y = partition_scheme::cuts_below(vector[4], dows) as int;
        assert(0 <= x + y * p < (d + 1) * p) by (nonlinear_arith)
            requires
                0 <= x < p,
                0 <= y <= d,
        ;
    }
}

} // verus!
