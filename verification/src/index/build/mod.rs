//! Building an index from labelled references.

pub mod grow;
pub mod split;

use vstd::prelude::*;

use crate::index::knn::Lane;
use crate::index::layout;
use crate::index::layout::Contents;
use crate::index::layout::Partition;
use crate::index::partition_scheme;
use crate::index::partition_scheme::PartitionScheme;
use crate::index::partition_scheme::TreePredicate;
use crate::index::partition_scheme::MAX_TREE_DEPTH;
use crate::index::sort;
use crate::index::store;
use crate::index::tree;
use crate::index::tree::Forest;
use crate::index::tree::Node;
use crate::QueryVector;

use grow::build_node;
use grow::MAX_REFERENCES;
use split::KdSplitStrategy;

verus! {

/// A labelled transaction: 1 stands for fraud.
#[derive(Clone, Copy, Debug)]
pub struct Reference {
    pub vector: QueryVector,
    pub label: u8,
}

/// The leaf size that is used in place of `leaf_size`: at least 8, at most 2048.
pub open spec fn clamped(leaf_size: usize) -> usize {
    if leaf_size < 8 {
        8
    } else if leaf_size > 2048 {
        2048
    } else {
        leaf_size
    }
}

/// The scheme can be stored.
pub open spec fn storable(scheme: PartitionScheme) -> bool {
    &&& scheme.tree_depth <= MAX_TREE_DEPTH
    &&& scheme.amount_cut_count <= 0x7fff
    &&& scheme.dow_cut_count <= 0x7fff
    &&& scheme.tree_predicates@.len() <= 0x7fff
}

/// The partition's tree holds references with its key only, each once.
pub open spec fn part_good(
    references: Seq<Reference>,
    scheme: PartitionScheme,
    cuts: Seq<i16>,
    nodes: Seq<Node>,
    lanes: Seq<Lane>,
    part: Partition,
) -> bool {
    let below = grow::covers(nodes, part.root as int);
    &&& 0 <= part.root < nodes.len()
    &&& part.start == 0
    &&& part.len == nodes[part.root as int].len
    &&& part.min == nodes[part.root as int].min
    &&& part.max == nodes[part.root as int].max
    &&& forall|p: int| #[trigger]
        below.contains(p) ==> scheme.key(
            references[lanes[p].ref_index as int].vector@,
            cuts,
        ) == part.key
    &&& forall|p: int, q: int| #[trigger]
        below.contains(p) && #[trigger] below.contains(q) && p != q ==> lanes[p].ref_index
            != lanes[q].ref_index
}

/// The reference with index `x` is in one of the partitions.
pub open spec fn placed(
    nodes: Seq<Node>,
    lanes: Seq<Lane>,
    partitions: Seq<Partition>,
    x: int,
) -> bool {
    exists|k: int, p: int|
        0 <= k < partitions.len() && #[trigger] grow::covers(
            nodes,
            partitions[k].root as int,
        ).contains(p) && lanes[p].ref_index == x
}

/// The trees and partitions are as they should be, with the partitions in the order of their keys.
pub open spec fn parts_good(
    references: Seq<Reference>,
    leaf_size: usize,
    strategy: KdSplitStrategy,
    scheme: PartitionScheme,
    cuts: Seq<i16>,
    nodes: Seq<Node>,
    lanes: Seq<Lane>,
    partitions: Seq<Partition>,
) -> bool {
    &&& lanes.len() % 8 == 0
    &&& forall|j: int|
        0 <= j < nodes.len() ==> #[trigger] grow::node_good(references, nodes, lanes, j)
    &&& forall|j: int|
        0 <= j < nodes.len() ==> #[trigger] grow::shape_good(
            references,
            leaf_size,
            strategy,
            nodes,
            lanes,
            j,
        )
    &&& forall|k: int|
        0 <= k < partitions.len() ==> part_good(
            references,
            scheme,
            cuts,
            nodes,
            lanes,
            #[trigger] partitions[k],
        )
    &&& forall|k: int, l: int|
        0 <= k < l < partitions.len() ==> partitions[k].key < partitions[l].key
}

/// Node `j` belongs to the tree of one of the partitions.
pub open spec fn rooted(nodes: Seq<Node>, partitions: Seq<Partition>, j: int) -> bool {
    exists|k: int|
        0 <= k < partitions.len() && grow::family(
            nodes,
            (#[trigger] partitions[k]).root as int,
        ).contains(j)
}

/// Every node belongs to the tree of a partition, and every place is in a block of a leaf.
pub open spec fn all_used(
    nodes: Seq<Node>,
    lanes: Seq<Lane>,
    partitions: Seq<Partition>,
) -> bool {
    &&& forall|j: int| 0 <= j < nodes.len() ==> #[trigger] rooted(nodes, partitions, j)
    &&& forall|p: int| 0 <= p < lanes.len() ==> #[trigger] grow::in_block(nodes, 0, p)
}

/// The contents are an index of the references: one tree for each partition key that occurs, with
/// every reference in the tree of its key, and nothing else.
pub open spec fn is_index(
    references: Seq<Reference>,
    leaf_size: usize,
    strategy: KdSplitStrategy,
    scheme: PartitionScheme,
    contents: Contents,
) -> bool {
    let cuts = contents.amount_cuts@ + contents.dow_cuts@;
    &&& contents.reference_count == references.len()
    &&& contents.scheme_id == (if scheme.walks_tree() {
        partition_scheme::TREE_SCHEME
    } else {
        partition_scheme::CUTS_SCHEME
    })
    &&& contents.scheme_param == scheme.tree_depth
    &&& contents.predicates@ == scheme.tree_predicates@
    &&& partition_scheme::are_quantiles(
        contents.amount_cuts@,
        partition_scheme::coordinates(references, 0),
        scheme.amount_cut_count as int,
    )
    &&& partition_scheme::are_quantiles(
        contents.dow_cuts@,
        partition_scheme::coordinates(references, 4),
        scheme.dow_cut_count as int,
    )
    &&& parts_good(
        references,
        leaf_size,
        strategy,
        scheme,
        cuts,
        contents.forest.nodes@,
        contents.forest.lanes@,
        contents.partitions@,
    )
    &&& forall|x: int|
        0 <= x < references.len() ==> #[trigger] placed(
            contents.forest.nodes@,
            contents.forest.lanes@,
            contents.partitions@,
            x,
        )
    &&& all_used(contents.forest.nodes@, contents.forest.lanes@, contents.partitions@)
}

/// A tree was grown behind the others, with its partition: still everything is used.
proof fn lemma_all_used(
    references: Seq<Reference>,
    indices: Seq<usize>,
    nodes: Seq<Node>,
    lanes: Seq<Lane>,
    partitions: Seq<Partition>,
    more_nodes: Seq<Node>,
    more_lanes: Seq<Lane>,
    part: Partition,
)
    requires
        all_used(nodes, lanes, partitions),
        forall|j: int|
            0 <= j < nodes.len() ==> #[trigger] grow::node_good(references, nodes, lanes, j),
        forall|k: int|
            0 <= k < partitions.len() ==> 0 <= (#[trigger] partitions[k]).root < nodes.len(),
        grow::grown(references, indices, nodes, lanes, more_nodes, more_lanes),
        part.root == nodes.len(),
    ensures
        all_used(more_nodes, more_lanes, partitions.push(part)),
{
    let all = partitions.push(part);
    assert forall|j: int| 0 <= j < more_nodes.len() implies #[trigger] rooted(
        more_nodes,
        all,
        j,
    ) by {
        if j < nodes.len() {
            assert(rooted(nodes, partitions, j));
            let k = choose|k: int|
                0 <= k < partitions.len() && grow::family(
                    nodes,
                    (#[trigger] partitions[k]).root as int,
                ).contains(j);
            grow::lemma_subtree_stays(
                references,
                nodes,
                lanes,
                more_nodes,
                more_lanes,
                partitions[k].root as int,
            );
            assert(all[k] == partitions[k]);
        } else {
            assert(grow::family(more_nodes, part.root as int).contains(j));
            assert(all[partitions.len() as int] == part);
        }
    }
    assert forall|p: int| 0 <= p < more_lanes.len() implies #[trigger] grow::in_block(
        more_nodes,
        0,
        p,
    ) by {
        if p < lanes.len() {
            assert(grow::in_block(nodes, 0, p));
            let j = choose|j: int|
                0 <= j < nodes.len() && (#[trigger] nodes[j]).is_leaf() && nodes[j].start * 8 <= p
                    < (nodes[j].start + nodes[j].blocks()) * 8;
            assert(more_nodes[j] == nodes[j]);
        } else {
            assert(grow::in_block(more_nodes, nodes.len() as int, p));
            let j = choose|j: int|
                nodes.len() <= j < more_nodes.len() && (#[trigger] more_nodes[j]).is_leaf()
                    && more_nodes[j].start * 8 <= p < (more_nodes[j].start
                    + more_nodes[j].blocks()) * 8;
            assert(more_nodes[j].is_leaf());
        }
    }
}

/// A tree was grown behind the others: these are as good as before.
proof fn lemma_parts_stay(
    references: Seq<Reference>,
    leaf_size: usize,
    strategy: KdSplitStrategy,
    scheme: PartitionScheme,
    cuts: Seq<i16>,
    nodes: Seq<Node>,
    lanes: Seq<Lane>,
    partitions: Seq<Partition>,
    indices: Seq<usize>,
    more_nodes: Seq<Node>,
    more_lanes: Seq<Lane>,
)
    requires
        parts_good(references, leaf_size, strategy, scheme, cuts, nodes, lanes, partitions),
        grow::grown(references, indices, nodes, lanes, more_nodes, more_lanes),
        forall|j: int|
            nodes.len() <= j < more_nodes.len() ==> #[trigger] grow::shape_good(
                references,
                leaf_size,
                strategy,
                more_nodes,
                more_lanes,
                j,
            ),
    ensures
        parts_good(
            references,
            leaf_size,
            strategy,
            scheme,
            cuts,
            more_nodes,
            more_lanes,
            partitions,
        ),
        forall|x: int| #[trigger]
            placed(nodes, lanes, partitions, x) ==> placed(
                more_nodes,
                more_lanes,
                partitions,
                x,
            ),
{
    assert forall|j: int| 0 <= j < more_nodes.len() implies #[trigger] grow::node_good(
        references,
        more_nodes,
        more_lanes,
        j,
    ) by {
        if j < nodes.len() {
            grow::lemma_subtree_stays(references, nodes, lanes, more_nodes, more_lanes, j);
        }
    }
    assert forall|j: int| 0 <= j < more_nodes.len() implies #[trigger] grow::shape_good(
        references,
        leaf_size,
        strategy,
        more_nodes,
        more_lanes,
        j,
    ) by {
        if j < nodes.len() {
            assert(grow::shape_good(references, leaf_size, strategy, nodes, lanes, j));
            grow::lemma_shape_stays(
                references,
                leaf_size,
                strategy,
                nodes,
                lanes,
                more_nodes,
                more_lanes,
                j,
            );
        }
    }
    assert forall|k: int| 0 <= k < partitions.len() implies part_good(
        references,
        scheme,
        cuts,
        more_nodes,
        more_lanes,
        #[trigger] partitions[k],
    ) by {
        let root = partitions[k].root as int;
        assert(part_good(references, scheme, cuts, nodes, lanes, partitions[k]));
        grow::lemma_subtree_stays(references, nodes, lanes, more_nodes, more_lanes, root);
        assert(more_nodes[root] == nodes[root]);
        lemma_part_stays(
            references,
            scheme,
            cuts,
            nodes,
            lanes,
            more_nodes,
            more_lanes,
            partitions[k],
        );
    }
    assert forall|x: int| #[trigger] placed(nodes, lanes, partitions, x) implies placed(
        more_nodes,
        more_lanes,
        partitions,
        x,
    ) by {
        let (k, p) = choose|k: int, p: int|
            0 <= k < partitions.len() && #[trigger] grow::covers(
                nodes,
                partitions[k].root as int,
            ).contains(p) && lanes[p].ref_index == x;
        let root = partitions[k].root as int;
        assert(part_good(references, scheme, cuts, nodes, lanes, partitions[k]));
        grow::lemma_subtree_stays(references, nodes, lanes, more_nodes, more_lanes, root);
        assert(grow::covers(more_nodes, root).contains(p));
        assert(more_lanes[p] == lanes[p]);
    }
}

proof fn lemma_part_stays(
    references: Seq<Reference>,
    scheme: PartitionScheme,
    cuts: Seq<i16>,
    nodes: Seq<Node>,
    lanes: Seq<Lane>,
    more_nodes: Seq<Node>,
    more_lanes: Seq<Lane>,
    part: Partition,
)
    requires
        part_good(references, scheme, cuts, nodes, lanes, part),
        nodes.len() <= more_nodes.len(),
        more_nodes[part.root as int] == nodes[part.root as int],
        grow::covers(more_nodes, part.root as int) == grow::covers(nodes, part.root as int),
        forall|p: int| #[trigger]
            grow::covers(nodes, part.root as int).contains(p) ==> more_lanes[p] == lanes[p],
    ensures
        part_good(references, scheme, cuts, more_nodes, more_lanes, part),
{
}

/// One of the entries is for the reference with index `x`.
spec fn listed(entries: Seq<(i64, usize)>, x: int) -> bool {
    exists|t: int| 0 <= t < entries.len() && (#[trigger] entries[t]).1 == x
}

/// The partition key of each reference, with its index, in the order of the keys.
fn keyed_references(references: &[Reference], scheme: &PartitionScheme, cuts: &[i16]) -> (r: Vec<
    (i64, usize),
>)
    requires
        storable(*scheme),
        cuts@.len() == scheme.amount_cut_count + scheme.dow_cut_count,
    ensures
        r@.len() == references@.len(),
        sort::sorted(r@),
        forall|t: int|
            0 <= t < r@.len() ==> (#[trigger] r@[t]).1 < references@.len() && r@[t].0 == scheme.key(
                references@[r@[t].1 as int].vector@,
                cuts@,
            ) && 0 <= r@[t].0 <= u32::MAX,
        forall|s: int, t: int| 0 <= s < t < r@.len() ==> r@[s].1 != r@[t].1,
        forall|x: int| 0 <= x < references@.len() ==> #[trigger] listed(r@, x),
{
    let mut entries: Vec<(i64, usize)> = Vec::new();
    let mut i: usize = 0;
    while i < references.len()
        invariant
            i <= references@.len(),
            storable(*scheme),
            cuts@.len() == scheme.amount_cut_count + scheme.dow_cut_count,
            entries@.len() == i,
            forall|t: int|
                0 <= t < i ==> (#[trigger] entries@[t]).1 == t && entries@[t].0 == scheme.key(
                    references@[t].vector@,
                    cuts@,
                ) && 0 <= entries@[t].0 <= u32::MAX,
        decreases references@.len() - i,
    {
        let key: u32 = scheme.compute_key(&references[i].vector, cuts);
        entries.push((key as i64, i));
        i = i + 1;
    }
    let ghost unsorted = entries@;
    let sorted = sort::sort_entries(entries);
    proof {
        assert(unsorted.no_duplicates()) by {
            assert forall|a: int, b: int|
                0 <= a < unsorted.len() && 0 <= b < unsorted.len() && a != b implies unsorted[a]
                != unsorted[b] by {
                assert(unsorted[a].1 == a && unsorted[b].1 == b);
            }
        }
        unsorted.lemma_multiset_has_no_duplicates();
        sorted@.lemma_multiset_has_no_duplicates_conv();
        unsorted.to_multiset_ensures();
        sorted@.to_multiset_ensures();
        assert forall|t: int| 0 <= t < sorted@.len() implies (#[trigger] sorted@[t]).1
            < references@.len() && sorted@[t] == unsorted[sorted@[t].1 as int] by {
            assert(sorted@.contains(sorted@[t]));
            assert(sorted@.to_multiset().count(sorted@[t]) > 0);
            assert(unsorted.to_multiset().count(sorted@[t]) > 0);
            assert(unsorted.contains(sorted@[t]));
            let m = choose|m: int| 0 <= m < unsorted.len() && unsorted[m] == sorted@[t];
            assert(unsorted[m].1 == m);
        }
        assert forall|s: int, t: int| 0 <= s < t < sorted@.len() implies sorted@[s].1
            != sorted@[t].1 by {
            assert(sorted@[s] != sorted@[t]);
            assert(sorted@[s] == unsorted[sorted@[s].1 as int]);
            assert(sorted@[t] == unsorted[sorted@[t].1 as int]);
        }
        assert forall|x: int| 0 <= x < references@.len() implies #[trigger] listed(
            sorted@,
            x,
        ) by {
            assert(unsorted.contains(unsorted[x]));
            assert(unsorted.to_multiset().count(unsorted[x]) > 0);
            assert(sorted@.to_multiset().count(unsorted[x]) > 0);
            assert(sorted@.contains(unsorted[x]));
            let t = choose|t: int| 0 <= t < sorted@.len() && sorted@[t] == unsorted[x];
            assert(sorted@[t].1 == x);
        }
    }
    sorted
}

/// The indices of a run of entries with one key.
fn run_of(sorted: &Vec<(i64, usize)>, from: usize, len: Ghost<int>) -> (r: Vec<usize>)
    requires
        from < sorted@.len(),
        sort::sorted(sorted@),
        forall|t: int| 0 <= t < sorted@.len() ==> (#[trigger] sorted@[t]).1 < len@,
        forall|s: int, t: int| 0 <= s < t < sorted@.len() ==> sorted@[s].1 != sorted@[t].1,
    ensures
        0 < r@.len() <= sorted@.len() - from,
        r@.no_duplicates(),
        forall|k: int|
            0 <= k < r@.len() ==> #[trigger] r@[k] == sorted@[from + k].1 && r@[k] < len@
                && sorted@[from + k].0 == sorted@[from as int].0,
        from + r@.len() < sorted@.len() ==> sorted@[from as int].0 < sorted@[from + r@.len()].0,
{
    let key: i64 = sorted[from].0;
    let mut r: Vec<usize> = Vec::new();
    let mut j: usize = from;
    while j < sorted.len() && sorted[j].0 == key
        invariant
            from <= j <= sorted@.len(),
            key == sorted@[from as int].0,
            from < sorted@.len(),
            forall|t: int| 0 <= t < sorted@.len() ==> (#[trigger] sorted@[t]).1 < len@,
            r@.len() == j - from,
            forall|k: int|
                0 <= k < r@.len() ==> #[trigger] r@[k] == sorted@[from + k].1 && r@[k] < len@
                    && sorted@[from + k].0 == key,
        decreases sorted@.len() - j,
    {
        r.push(sorted[j].1);
        j = j + 1;
    }
    proof {
        assert(r@.len() > 0) by {
            if r@.len() == 0 {
                assert(j == from);
            }
        }
        assert forall|a: int, b: int| 0 <= a < r@.len() && 0 <= b < r@.len() && a != b
            implies r@[a] != r@[b] by {
            assert(r@[a] == sorted@[from + a].1 && r@[b] == sorted@[from + b].1);
            if a < b {
                assert(sorted@[from + a].1 != sorted@[from + b].1);
            } else {
                assert(sorted@[from + b].1 != sorted@[from + a].1);
            }
        }
    }
    r
}

/// Copies questions.
fn copy_predicates(predicates: &Vec<TreePredicate>) -> (r: Vec<TreePredicate>)
    ensures
        r@ == predicates@,
{
    let mut r: Vec<TreePredicate> = Vec::new();
    let mut i: usize = 0;
    while i < predicates.len()
        invariant
            i <= predicates@.len(),
            r@ =~= predicates@.subrange(0, i as int),
        decreases predicates@.len() - i,
    {
        r.push(predicates[i]);
        i = i + 1;
    }
    assert(r@ =~= predicates@);
    r
}

/// Copies some of the cuts.
fn copy_cuts(cuts: &Vec<i16>, from: usize, to: usize) -> (r: Vec<i16>)
    requires
        from <= to <= cuts@.len(),
    ensures
        r@ == cuts@.subrange(from as int, to as int),
{
    let mut r: Vec<i16> = Vec::new();
    let mut i: usize = from;
    while i < to
        invariant
            from <= i <= to <= cuts@.len(),
            r@ =~= cuts@.subrange(from as int, i as int),
        decreases to - i,
    {
        r.push(cuts[i]);
        i = i + 1;
    }
    r
}

/// The tree over a run of references was added to the others, with its partition.
proof fn lemma_part_added(
    references: Seq<Reference>,
    leaf_size: usize,
    strategy: KdSplitStrategy,
    scheme: PartitionScheme,
    cuts: Seq<i16>,
    sorted: Seq<(i64, usize)>,
    from: int,
    indices: Seq<usize>,
    nodes: Seq<Node>,
    lanes: Seq<Lane>,
    partitions: Seq<Partition>,
    more_nodes: Seq<Node>,
    more_lanes: Seq<Lane>,
    part: Partition,
)
    requires
        0 <= from < sorted.len(),
        from + indices.len() <= sorted.len(),
        sort::sorted(sorted),
        forall|t: int|
            0 <= t < sorted.len() ==> (#[trigger] sorted[t]).1 < references.len() && sorted[t].0
                == scheme.key(references[sorted[t].1 as int].vector@, cuts) && 0 <= sorted[t].0
                <= u32::MAX,
        forall|k: int|
            0 <= k < indices.len() ==> #[trigger] indices[k] == sorted[from + k].1
                && sorted[from + k].0 == sorted[from].0,
        parts_good(references, leaf_size, strategy, scheme, cuts, nodes, lanes, partitions),
        forall|k: int| 0 <= k < partitions.len() ==> (#[trigger] partitions[k]).key < sorted[from].0,
        forall|t: int|
            0 <= t < from ==> placed(nodes, lanes, partitions, (#[trigger] sorted[t]).1 as int),
        grow::grown(references, indices, nodes, lanes, more_nodes, more_lanes),
        forall|j: int|
            nodes.len() <= j < more_nodes.len() ==> #[trigger] grow::shape_good(
                references,
                leaf_size,
                strategy,
                more_nodes,
                more_lanes,
                j,
            ),
        part.root == nodes.len(),
        part.key == sorted[from].0,
        part.start == 0,
        part.len == more_nodes[part.root as int].len,
        part.min == more_nodes[part.root as int].min,
        part.max == more_nodes[part.root as int].max,
    ensures
        parts_good(
            references,
            leaf_size,
            strategy,
            scheme,
            cuts,
            more_nodes,
            more_lanes,
            partitions.push(part),
        ),
        forall|t: int|
            0 <= t < from + indices.len() ==> placed(
                more_nodes,
                more_lanes,
                partitions.push(part),
                (#[trigger] sorted[t]).1 as int,
            ),
{
    lemma_parts_stay(
        references,
        leaf_size,
        strategy,
        scheme,
        cuts,
        nodes,
        lanes,
        partitions,
        indices,
        more_nodes,
        more_lanes,
    );
    let root = part.root as int;
    let below = grow::covers(more_nodes, root);
    let all = partitions.push(part);
    assert(part_good(references, scheme, cuts, more_nodes, more_lanes, part)) by {
        assert forall|p: int| #[trigger] below.contains(p) implies scheme.key(
            references[more_lanes[p].ref_index as int].vector@,
            cuts,
        ) == part.key by {
            let x = more_lanes[p].ref_index as usize;
            assert(indices.contains(x));
            let k = choose|k: int| 0 <= k < indices.len() && indices[k] == x;
            assert(sorted[from + k].1 == x);
        }
    }
    assert forall|k: int| 0 <= k < all.len() implies part_good(
        references,
        scheme,
        cuts,
        more_nodes,
        more_lanes,
        #[trigger] all[k],
    ) by {
        if k < partitions.len() {
            assert(all[k] == partitions[k]);
        }
    }
    assert forall|k: int, l: int| 0 <= k < l < all.len() implies all[k].key < all[l].key by {
        assert(all[k] == partitions[k]);
        if l < partitions.len() {
            assert(all[l] == partitions[l]);
        }
    }
    assert forall|t: int| 0 <= t < from + indices.len() implies placed(
        more_nodes,
        more_lanes,
        all,
        (#[trigger] sorted[t]).1 as int,
    ) by {
        let x = sorted[t].1 as int;
        if t < from {
            assert(placed(nodes, lanes, partitions, x));
            assert(placed(more_nodes, more_lanes, partitions, x));
            let (k, p) = choose|k: int, p: int|
                0 <= k < partitions.len() && #[trigger] grow::covers(
                    more_nodes,
                    partitions[k].root as int,
                ).contains(p) && more_lanes[p].ref_index == x;
            assert(all[k] == partitions[k]);
            assert(grow::covers(more_nodes, all[k].root as int).contains(p));
        } else {
            assert(indices[t - from] == sorted[from + (t - from)].1);
            assert(indices.contains(x as usize));
            let p = choose|p: int| #[trigger]
                below.contains(p) && more_lanes[p].ref_index == x as usize;
            let k = partitions.len() as int;
            assert(all[k] == part);
            assert(grow::covers(more_nodes, all[k].root as int).contains(p));
        }
    }
}

/// Builds the contents of an index: the references are dealt out to partitions by their keys, and a
/// tree is grown over each partition, in the order of the keys.
pub fn build_contents(
    references: &[Reference],
    leaf_size: usize,
    scheme: &PartitionScheme,
    split_strategy: KdSplitStrategy,
) -> (r: Contents)
    requires
        references@.len() <= MAX_REFERENCES,
        storable(*scheme),
    ensures
        is_index(references@, clamped(leaf_size), split_strategy, *scheme, r),
        r.forest.nodes@.len() <= 2 * references@.len(),
        r.forest.lanes@.len() <= 8 * references@.len(),
        r.partitions@.len() <= references@.len(),
{
    let leaf_size: usize = if leaf_size < 8 {
        8
    } else if leaf_size > 2048 {
        2048
    } else {
        leaf_size
    };
    let cuts = scheme.compute_cuts(references);
    let sorted = keyed_references(references, scheme, cuts.as_slice());
    let n: usize = sorted.len();
    let mut nodes: Vec<Node> = Vec::new();
    let mut lanes: Vec<Lane> = Vec::new();
    let mut partitions: Vec<Partition> = Vec::new();
    let mut i: usize = 0;
    while i < n
        invariant
            i <= n,
            n == sorted@.len(),
            n == references@.len(),
            n <= MAX_REFERENCES,
            leaf_size >= 8,
            sort::sorted(sorted@),
            forall|t: int|
                0 <= t < sorted@.len() ==> (#[trigger] sorted@[t]).1 < references@.len()
                    && sorted@[t].0 == scheme.key(
                    references@[sorted@[t].1 as int].vector@,
                    cuts@,
                ) && 0 <= sorted@[t].0 <= u32::MAX,
            forall|s: int, t: int| 0 <= s < t < sorted@.len() ==> sorted@[s].1 != sorted@[t].1,
            parts_good(
                references@,
                leaf_size,
                split_strategy,
                *scheme,
                cuts@,
                nodes@,
                lanes@,
                partitions@,
            ),
            i < n ==> forall|k: int|
                0 <= k < partitions@.len() ==> (#[trigger] partitions@[k]).key
                    < sorted@[i as int].0,
            forall|t: int|
                0 <= t < i ==> placed(
                    nodes@,
                    lanes@,
                    partitions@,
                    (#[trigger] sorted@[t]).1 as int,
                ),
            all_used(nodes@, lanes@, partitions@),
            nodes@.len() <= 2 * i,
            lanes@.len() <= 8 * i,
            partitions@.len() <= i,
        decreases n - i,
    {
        let indices = run_of(&sorted, i, Ghost(references@.len() as int));
        let ghost (old_nodes, old_lanes, old_parts) = (nodes@, lanes@, partitions@);
        assert(split::in_range(references@, indices@));
        let root: usize = build_node(
            references,
            &indices,
            leaf_size,
            split_strategy,
            &mut lanes,
            &mut nodes,
        );
        let node = nodes[root];
        let part = Partition {
            key: sorted[i].0 as u32,
            root: root as i32,
            start: 0,
            len: node.len,
            min: node.min,
            max: node.max,
        };
        proof {
            lemma_part_added(
                references@,
                leaf_size,
                split_strategy,
                *scheme,
                cuts@,
                sorted@,
                i as int,
                indices@,
                old_nodes,
                old_lanes,
                old_parts,
                nodes@,
                lanes@,
                part,
            );
            assert forall|k: int| 0 <= k < old_parts.len() implies 0 <= (
            #[trigger] old_parts[k]).root < old_nodes.len() by {
                assert(part_good(
                    references@,
                    *scheme,
                    cuts@,
                    old_nodes,
                    old_lanes,
                    old_parts[k],
                ));
            }
            lemma_all_used(
                references@,
                indices@,
                old_nodes,
                old_lanes,
                old_parts,
                nodes@,
                lanes@,
                part,
            );
        }
        partitions.push(part);
        let ghost from = i as int;
        i = i + indices.len();
        proof {
            if i < n {
                assert forall|k: int| 0 <= k < partitions@.len() implies (
                #[trigger] partitions@[k]).key < sorted@[i as int].0 by {
                    if k < old_parts.len() {
                        assert(partitions@[k] == old_parts[k]);
                        assert(old_parts[k].key < sorted@[from].0);
                    }
                }
            }
        }
    }
    let split: usize = scheme.amount_cut_count;
    let total: usize = cuts.len();
    let contents = Contents {
        reference_count: references.len() as i32,
        scheme_id: scheme.scheme_id(),
        scheme_param: scheme.tree_depth as i16,
        amount_cuts: copy_cuts(&cuts, 0, split),
        dow_cuts: copy_cuts(&cuts, split, total),
        predicates: copy_predicates(&scheme.tree_predicates),
        partitions,
        forest: Forest { nodes, lanes },
    };
    proof {
        assert(contents.amount_cuts@ + contents.dow_cuts@ =~= cuts@);
        assert forall|x: int| 0 <= x < references@.len() implies #[trigger] placed(
            contents.forest.nodes@,
            contents.forest.lanes@,
            contents.partitions@,
            x,
        ) by {
            assert(listed(sorted@, x));
            let t = choose|t: int| 0 <= t < sorted@.len() && (#[trigger] sorted@[t]).1 == x;
            assert(sorted@[t].1 == x);
        }
    }
    contents
}

/// The bytes are a file that holds an index of the references.
pub open spec fn holds_index(
    bytes: Seq<u8>,
    references: Seq<Reference>,
    leaf_size: usize,
    strategy: KdSplitStrategy,
    scheme: PartitionScheme,
) -> bool {
    &&& layout::fault(bytes) is None
    &&& exists|c: Contents|
        #[trigger] c.stored_in(bytes) && is_index(references, leaf_size, strategy, scheme, c)
}

/// Builds an index file from references.
pub fn build_index_with(
    references: Vec<Reference>,
    leaf_size: usize,
    scheme: PartitionScheme,
    split_strategy: KdSplitStrategy,
) -> (r: Result<Vec<u8>, String>)
    requires
        references@.len() <= MAX_REFERENCES,
        storable(scheme),
    ensures
        r matches Ok(bytes) && holds_index(
            bytes@,
            references@,
            clamped(leaf_size),
            split_strategy,
            scheme,
        ),
{
    let contents = build_contents(references.as_slice(), leaf_size, &scheme, split_strategy);
    proof {
        assert forall|k: int| 0 <= k < contents.partitions@.len() implies {
            &&& (#[trigger] contents.partitions@[k]).root >= 0
            &&& contents.partitions@[k].start == 0
            &&& contents.partitions@[k].len >= 0
        } by {
            let part = contents.partitions@[k];
            assert(part_good(
                references@,
                scheme,
                contents.amount_cuts@ + contents.dow_cuts@,
                contents.forest.nodes@,
                contents.forest.lanes@,
                part,
            ));
            assert(grow::node_good(
                references@,
                contents.forest.nodes@,
                contents.forest.lanes@,
                part.root as int,
            ));
        }
        assert forall|k: int| 0 <= k < contents.forest.nodes@.len() implies {
            &&& (#[trigger] contents.forest.nodes@[k]).start >= 0
            &&& contents.forest.nodes@[k].len >= 0
        } by {
            assert(grow::node_good(
                references@,
                contents.forest.nodes@,
                contents.forest.lanes@,
                k,
            ));
        }
    }
    Ok(store::write_contents(&contents))
}

/// Builds an index file from references, with trees split where they are widest.
pub fn build_index(
    references: Vec<Reference>,
    leaf_size: usize,
    scheme: PartitionScheme,
) -> (r: Result<Vec<u8>, String>)
    requires
        references@.len() <= MAX_REFERENCES,
        storable(scheme),
    ensures
        r matches Ok(bytes) && holds_index(
            bytes@,
            references@,
            clamped(leaf_size),
            KdSplitStrategy::Widest,
            scheme,
        ),
{
    build_index_with(references, leaf_size, scheme, KdSplitStrategy::Widest)
}

} // verus!
