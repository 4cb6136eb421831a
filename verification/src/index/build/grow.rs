//! Growing a tree over references.

use vstd::prelude::*;

use crate::index::build::split;
use crate::index::build::split::KdSplitStrategy;
use crate::index::build::Reference;
use crate::index::knn::Lane;
use crate::index::tree;
use crate::index::tree::Node;
use crate::index::tree::TREE_STACK_CAPACITY;
use crate::QueryVector;
use crate::DIMS;
use crate::PACKED_DIMS;

verus! {

/// The most references an index can hold, so that its counts fit four bytes.
pub const MAX_REFERENCES: usize = 0x3fff_ffff;

/// The class of a label; labels over 7 share one.
pub open spec fn class_of(label: u8) -> u8 {
    if label < 7 {
        label
    } else {
        7
    }
}

/// The bit that stands for a label's class.
pub open spec fn class_bit(label: u8) -> u8 {
    1u8 << class_of(label)
}

/// The lane holds the reference of its index.
pub open spec fn holds_reference(lane: Lane, references: Seq<Reference>) -> bool {
    &&& lane.ref_index < references.len()
    &&& lane.label == references[lane.ref_index as int].label
    &&& forall|d: int|
        0 <= d < DIMS ==> #[trigger] lane.vector@[d]
            == references[lane.ref_index as int].vector@[d]
}

/// The vector lies in the box.
pub open spec fn boxed(vector: Seq<i16>, min: Seq<i16>, max: Seq<i16>) -> bool {
    forall|d: int| 0 <= d < PACKED_DIMS ==> min[d] <= #[trigger] vector[d] <= max[d]
}

/// The lane holds a reference in the node's box, and the node's class bits have its label's.
pub open spec fn belongs(references: Seq<Reference>, node: Node, lane: Lane) -> bool {
    &&& holds_reference(lane, references)
    &&& boxed(references[lane.ref_index as int].vector@, node.min@, node.max@)
    &&& node.class_bits & class_bit(lane.label) != 0
}

/// Node `i` is a leaf whose blocks exist, or has two subtrees further on.
pub open spec fn node_fits(nodes: Seq<Node>, lanes: Seq<Lane>, i: int) -> bool {
    let node = nodes[i];
    if node.is_leaf() {
        &&& node.start >= 0
        &&& node.len >= 0
        &&& (node.start + node.blocks()) * 8 <= lanes.len()
    } else {
        i < node.left < nodes.len() && i < node.right < nodes.len()
    }
}

/// The places of the references below node `i`, where subtrees stand further on.
pub open spec fn covers(nodes: Seq<Node>, i: int) -> Set<int>
    decreases nodes.len() - i,
{
    if i < 0 || i >= nodes.len() {
        Set::empty()
    } else {
        let node = nodes[i];
        if node.is_leaf() {
            Set::new(|p: int| node.start * 8 <= p < node.start * 8 + node.len)
        } else if i < node.left < nodes.len() && i < node.right < nodes.len() {
            covers(nodes, node.left as int).union(covers(nodes, node.right as int))
        } else {
            Set::empty()
        }
    }
}

/// Node `i` and the nodes below it, where subtrees stand further on.
pub open spec fn family(nodes: Seq<Node>, i: int) -> Set<int>
    decreases nodes.len() - i,
{
    if i < 0 || i >= nodes.len() {
        Set::empty()
    } else {
        let node = nodes[i];
        if !node.is_leaf() && i < node.left < nodes.len() && i < node.right < nodes.len() {
            family(nodes, node.left as int).union(family(nodes, node.right as int)).insert(i)
        } else {
            Set::empty().insert(i)
        }
    }
}

/// How many levels the tree below node `i` has, where subtrees stand further on.
pub open spec fn height(nodes: Seq<Node>, i: int) -> nat
    decreases nodes.len() - i,
{
    if i < 0 || i >= nodes.len() {
        0
    } else {
        let node = nodes[i];
        if node.is_leaf() {
            1
        } else if i < node.left < nodes.len() && i < node.right < nodes.len() {
            let l = height(nodes, node.left as int);
            let r = height(nodes, node.right as int);
            1 + if l >= r {
                l
            } else {
                r
            }
        } else {
            1
        }
    }
}

/// Subtrees that stand further on make up a tree.
pub proof fn lemma_grown(nodes: Seq<Node>, lanes: Seq<Lane>, i: int)
    requires
        0 <= i < nodes.len(),
        forall|j: int| i <= j < nodes.len() ==> #[trigger] node_fits(nodes, lanes, j),
    ensures
        0 < height(nodes, i) <= nodes.len() - i,
        tree::stands(nodes, lanes, i, height(nodes, i)),
        tree::has_tree(nodes, lanes, i),
        tree::covers(nodes, i) == covers(nodes, i),
        tree::family(nodes, i) == family(nodes, i),
        forall|j: int| #[trigger] tree::family(nodes, i).contains(j) ==> i <= j < nodes.len(),
    decreases nodes.len() - i,
{
    assert(node_fits(nodes, lanes, i));
    let h = height(nodes, i);
    if nodes[i].is_leaf() {
        tree::lemma_more_levels(nodes, lanes, i, h, nodes.len());
        tree::lemma_tree(nodes, lanes, i);
    } else {
        let (l, r) = (nodes[i].left as int, nodes[i].right as int);
        lemma_grown(nodes, lanes, l);
        lemma_grown(nodes, lanes, r);
        tree::lemma_more_levels(nodes, lanes, l, height(nodes, l), (h - 1) as nat);
        tree::lemma_more_levels(nodes, lanes, r, height(nodes, r), (h - 1) as nat);
        assert(tree::stands(nodes, lanes, i, h));
        tree::lemma_more_levels(nodes, lanes, i, h, nodes.len());
        tree::lemma_tree(nodes, lanes, i);
    }
}

/// Some reference is below node `i`.
pub open spec fn inhabited(nodes: Seq<Node>, i: int) -> bool {
    exists|p: int| #[trigger] covers(nodes, i).contains(p)
}

/// Some reference below node `i` has a label of the class.
pub open spec fn has_class(nodes: Seq<Node>, lanes: Seq<Lane>, i: int, class: u8) -> bool {
    exists|p: int| #[trigger]
        covers(nodes, i).contains(p) && class_of(lanes[p].label) == class
}

/// A class bit of node `i` is set if and only if some reference below it has a label of the class.
pub open spec fn bits_hold(nodes: Seq<Node>, lanes: Seq<Lane>, i: int) -> bool {
    forall|class: u8|
        class < 8 ==> (#[trigger] has_class(nodes, lanes, i, class) <==> nodes[i].class_bits & (1u8
            << class) != 0)
}

/// The references of a leaf are followed by fillers up to the end of its last block; any other node
/// is followed by its left subtree, this by the right one, and it starts where the left one does.
pub open spec fn starts_well(nodes: Seq<Node>, lanes: Seq<Lane>, i: int) -> bool {
    let node = nodes[i];
    if node.is_leaf() {
        forall|p: int|
            node.start * 8 + node.len <= p < (node.start + node.blocks()) * 8 ==> is_filler(
                #[trigger] lanes[p],
            )
    } else {
        &&& node.left == i + 1
        &&& node.start == nodes[i + 1].start
        &&& forall|j: int|
            node.left <= j < node.right ==> #[trigger] family(nodes, i + 1).contains(j)
    }
}

/// Node `i` is as it should be: its references are in its box, its class bits tell their labels, its
/// subtrees share none, and it does not have too many levels.
pub open spec fn node_good(
    references: Seq<Reference>,
    nodes: Seq<Node>,
    lanes: Seq<Lane>,
    i: int,
) -> bool {
    &&& node_fits(nodes, lanes, i)
    &&& nodes[i].start >= 0
    &&& nodes[i].len >= 0
    &&& inhabited(nodes, i)
    &&& forall|p: int| #[trigger]
        covers(nodes, i).contains(p) ==> belongs(references, nodes[i], lanes[p])
    &&& bits_hold(nodes, lanes, i)
    &&& starts_well(nodes, lanes, i)
    &&& !nodes[i].is_leaf() ==> covers(nodes, nodes[i].left as int).disjoint(
        covers(nodes, nodes[i].right as int),
    )
    &&& height(nodes, i) <= TREE_STACK_CAPACITY
}

/// The references below node `i` are those of the indices, each once.
pub open spec fn holds_indices(
    nodes: Seq<Node>,
    lanes: Seq<Lane>,
    i: int,
    indices: Seq<usize>,
) -> bool {
    let below = covers(nodes, i);
    &&& forall|p: int| #[trigger] below.contains(p) ==> indices.contains(lanes[p].ref_index as usize)
    &&& forall|x: usize| #[trigger]
        indices.contains(x) ==> exists|p: int| #[trigger]
            below.contains(p) && lanes[p].ref_index == x
    &&& forall|p: int, q: int| #[trigger]
        below.contains(p) && #[trigger] below.contains(q) && p != q ==> lanes[p].ref_index
            != lanes[q].ref_index
}

/// The reference in a lane.
pub open spec fn reference_in(references: Seq<Reference>, lane: Lane) -> Reference {
    references[lane.ref_index as int]
}

/// Node `i` splits its references at a dimension: none on the left is over any on the right, and the
/// dimension is the one that the strategy chooses.
pub open spec fn splits_at(
    references: Seq<Reference>,
    strategy: KdSplitStrategy,
    nodes: Seq<Node>,
    lanes: Seq<Lane>,
    i: int,
    indices: Seq<usize>,
    dim: int,
) -> bool {
    let node = nodes[i];
    &&& 0 <= dim < DIMS
    &&& match strategy {
        KdSplitStrategy::Widest => split::is_widest(dim, node.min@, node.max@),
        KdSplitStrategy::Variance => split::is_most_varied(
            dim,
            references,
            indices,
            node.min@,
            node.max@,
        ),
    }
    &&& forall|p: int, q: int| #[trigger]
        covers(nodes, node.left as int).contains(p) && #[trigger] covers(
            nodes,
            node.right as int,
        ).contains(q) ==> reference_in(references, lanes[p]).vector@[dim] <= reference_in(
            references,
            lanes[q],
        ).vector@[dim]
}

/// Node `i` is over these references: its box is the smallest that holds them, it is a leaf if and
/// only if they are few, and else its subtrees have half of them each.
#[verifier::opaque]
pub open spec fn node_over(
    references: Seq<Reference>,
    leaf_size: usize,
    strategy: KdSplitStrategy,
    nodes: Seq<Node>,
    lanes: Seq<Lane>,
    i: int,
    indices: Seq<usize>,
) -> bool {
    let node = nodes[i];
    &&& holds_indices(nodes, lanes, i, indices)
    &&& split::is_box(references, indices, node.min@, node.max@)
    &&& node.len == indices.len()
    &&& node.is_leaf() == (indices.len() <= leaf_size)
    &&& !node.is_leaf() ==> {
        &&& i < node.left < nodes.len()
        &&& i < node.right < nodes.len()
        &&& nodes[node.left as int].len == node.len / 2
        &&& nodes[node.right as int].len == node.len - node.len / 2
        &&& exists|dim: int|
            #[trigger] splits_at(references, strategy, nodes, lanes, i, indices, dim)
    }
}

/// Node `i` has the shape that the leaf size and the strategy give it.
pub open spec fn shape_good(
    references: Seq<Reference>,
    leaf_size: usize,
    strategy: KdSplitStrategy,
    nodes: Seq<Node>,
    lanes: Seq<Lane>,
    i: int,
) -> bool {
    exists|indices: Seq<usize>|
        #[trigger] node_over(references, leaf_size, strategy, nodes, lanes, i, indices)
}

/// How many levels a tree over `n` references can have.
pub open spec fn levels(n: nat) -> nat
    decreases n,
{
    if n <= 8 {
        1
    } else {
        1 + levels((n - n / 2) as nat)
    }
}

proof fn lemma_levels_grow(m: nat, n: nat)
    requires
        m <= n,
    ensures
        levels(m) <= levels(n),
    decreases n,
{
    if n > 8 && m > 8 {
        lemma_levels_grow((m - m / 2) as nat, (n - n / 2) as nat);
    }
}

/// A tree over `n` references has few enough levels to be searched.
proof fn lemma_levels_bounded(n: nat)
    requires
        n <= MAX_REFERENCES,
    ensures
        levels(n) <= 32,
{
    lemma_levels_grow(n, 0x4000_0000);
    assert(levels(8) == 1);
    assert(levels(16) == 2);
    assert(levels(32) == 3);
    assert(levels(64) == 4);
    assert(levels(128) == 5);
    assert(levels(256) == 6);
    assert(levels(512) == 7);
    assert(levels(1024) == 8);
    assert(levels(2048) == 9);
    assert(levels(4096) == 10);
    assert(levels(8192) == 11);
    assert(levels(16384) == 12);
    assert(levels(32768) == 13);
    assert(levels(65536) == 14);
    assert(levels(0x2_0000) == 15);
    assert(levels(0x4_0000) == 16);
    assert(levels(0x8_0000) == 17);
    assert(levels(0x10_0000) == 18);
    assert(levels(0x20_0000) == 19);
    assert(levels(0x40_0000) == 20);
    assert(levels(0x80_0000) == 21);
    assert(levels(0x100_0000) == 22);
    assert(levels(0x200_0000) == 23);
    assert(levels(0x400_0000) == 24);
    assert(levels(0x800_0000) == 25);
    assert(levels(0x1000_0000) == 26);
    assert(levels(0x2000_0000) == 27);
    assert(levels(0x4000_0000) == 28);
}

/// More nodes in front and behind, and more references behind, change nothing below node `i`.
pub proof fn lemma_subtree_stays(
    references: Seq<Reference>,
    nodes: Seq<Node>,
    lanes: Seq<Lane>,
    more_nodes: Seq<Node>,
    more_lanes: Seq<Lane>,
    i: int,
)
    requires
        0 <= i < nodes.len() <= more_nodes.len(),
        lanes.len() <= more_lanes.len(),
        forall|j: int| i <= j < nodes.len() ==> #[trigger] more_nodes[j] == nodes[j],
        forall|p: int| 0 <= p < lanes.len() ==> #[trigger] more_lanes[p] == lanes[p],
        forall|j: int| i <= j < nodes.len() ==> #[trigger] node_good(references, nodes, lanes, j),
    ensures
        node_good(references, more_nodes, more_lanes, i),
        covers(more_nodes, i) == covers(nodes, i),
        height(more_nodes, i) == height(nodes, i),
        family(more_nodes, i) == family(nodes, i),
        forall|p: int| #[trigger] covers(nodes, i).contains(p) ==> 0 <= p < lanes.len(),
    decreases nodes.len() - i,
{
    assert(node_good(references, nodes, lanes, i));
    assert(more_nodes[i] == nodes[i]);
    let node = nodes[i];
    if !node.is_leaf() {
        lemma_subtree_stays(references, nodes, lanes, more_nodes, more_lanes, node.left as int);
        lemma_subtree_stays(references, nodes, lanes, more_nodes, more_lanes, node.right as int);
    }
    assert(covers(more_nodes, i) =~= covers(nodes, i));
    assert forall|p: int| #[trigger] covers(nodes, i).contains(p) implies 0 <= p
        < lanes.len() by {
        if !node.is_leaf() {
            assert(covers(nodes, node.left as int).contains(p) || covers(
                nodes,
                node.right as int,
            ).contains(p));
        }
    }
    assert(family(more_nodes, i) =~= family(nodes, i));
    let w = choose|p: int| #[trigger] covers(nodes, i).contains(p);
    assert(covers(more_nodes, i).contains(w));
    assert(bits_hold(more_nodes, more_lanes, i)) by {
        assert forall|class: u8| class < 8 implies (#[trigger] has_class(
            more_nodes,
            more_lanes,
            i,
            class,
        ) <==> node.class_bits & (1u8 << class) != 0) by {
            assert(has_class(nodes, lanes, i, class) <==> node.class_bits & (1u8 << class) != 0);
            if has_class(nodes, lanes, i, class) {
                let p = choose|p: int| #[trigger]
                    covers(nodes, i).contains(p) && class_of(lanes[p].label) == class;
                assert(covers(more_nodes, i).contains(p) && more_lanes[p] == lanes[p]);
            }
            if has_class(more_nodes, more_lanes, i, class) {
                let p = choose|p: int| #[trigger]
                    covers(more_nodes, i).contains(p) && class_of(more_lanes[p].label) == class;
                assert(covers(nodes, i).contains(p) && more_lanes[p] == lanes[p]);
            }
        }
    }
    assert(starts_well(more_nodes, more_lanes, i)) by {
        if node.is_leaf() {
            assert forall|p: int|
                node.start * 8 + node.len <= p < (node.start + node.blocks()) * 8 implies is_filler(
                #[trigger] more_lanes[p],
            ) by {
                assert(is_filler(lanes[p]));
            }
        }
    }
}

/// The bit that stands for a label.
fn bit_of(label: u8) -> (r: u8)
    ensures
        r == class_bit(label),
{
    let shift: u8 = if label < 7 {
        label
    } else {
        7
    };
    1u8 << shift
}

proof fn lemma_bit_is_set(bits: u8, label: u8)
    ensures
        (bits | class_bit(label)) & class_bit(label) != 0,
{
    let s: u8 = if label < 7 {
        label
    } else {
        7
    };
    assert((bits | (1u8 << s)) & (1u8 << s) != 0) by (bit_vector)
        requires
            s <= 7,
    ;
}

proof fn lemma_bits_stay(bits: u8, more: u8, bit: u8)
    requires
        bits & bit != 0,
    ensures
        (bits | more) & bit != 0,
        (more | bits) & bit != 0,
{
    assert((bits | more) & bit != 0 && (more | bits) & bit != 0) by (bit_vector)
        requires
            bits & bit != 0,
    ;
}

/// A bit that is set in one of two sets of bits or both is set in both together, and no other is.
proof fn lemma_bits_join(a: u8, b: u8, bit: u8)
    ensures
        (a | b) & bit != 0 <==> a & bit != 0 || b & bit != 0,
{
    assert((a | b) & bit != 0 <==> a & bit != 0 || b & bit != 0) by (bit_vector);
}

/// The bits of two classes differ.
proof fn lemma_class_bits_differ(a: u8, b: u8)
    requires
        a < 8,
        b < 8,
        a != b,
    ensures
        (1u8 << a) & (1u8 << b) == 0,
{
    assert((1u8 << a) & (1u8 << b) == 0) by (bit_vector)
        requires
            a < 8,
            b < 8,
            a != b,
    ;
}

/// One of the first `n` references has a label of the class.
pub open spec fn class_among(
    references: Seq<Reference>,
    indices: Seq<usize>,
    n: int,
    class: u8,
) -> bool {
    exists|k: int|
        0 <= k < n && class_of(references[(#[trigger] indices[k]) as int].label) == class
}

/// The first coordinates of a vector.
fn meaningful(vector: &QueryVector) -> (r: [i16; DIMS])
    ensures
        forall|d: int| 0 <= d < DIMS ==> #[trigger] r@[d] == vector@[d],
{
    let mut r: [i16; DIMS] = [0i16; DIMS];
    let mut d: usize = 0;
    while d < DIMS
        invariant
            d <= DIMS,
            r@.len() == DIMS,
            forall|e: int| 0 <= e < d ==> #[trigger] r@[e] == vector@[e],
        decreases DIMS - d,
    {
        let v: i16 = vector[d];
        r[d] = v;
        d = d + 1;
    }
    r
}

/// The lane fills up a block: it holds no reference.
pub open spec fn is_filler(lane: Lane) -> bool {
    &&& lane.label == 0
    &&& lane.ref_index == u32::MAX
    &&& forall|d: int| 0 <= d < DIMS ==> #[trigger] lane.vector@[d] == 0
}

/// The bits tell the classes of the first references, and those of one more with its bit.
proof fn lemma_class_added(
    references: Seq<Reference>,
    indices: Seq<usize>,
    i: int,
    bits: u8,
)
    requires
        0 <= i < indices.len(),
        forall|class: u8|
            class < 8 && bits & (1u8 << class) != 0 ==> #[trigger] class_among(
                references,
                indices,
                i,
                class,
            ),
    ensures
        forall|class: u8|
            class < 8 && (bits | class_bit(references[indices[i] as int].label)) & (1u8 << class)
                != 0 ==> #[trigger] class_among(references, indices, i + 1, class),
{
    let label = references[indices[i] as int].label;
    assert forall|class: u8|
        class < 8 && (bits | class_bit(label)) & (1u8 << class)
            != 0 implies #[trigger] class_among(references, indices, i + 1, class) by {
        lemma_bits_join(bits, class_bit(label), 1u8 << class);
        if bits & (1u8 << class) != 0 {
            assert(class_among(references, indices, i, class));
            let k = choose|k: int|
                0 <= k < i && class_of(references[(#[trigger] indices[k]) as int].label) == class;
            assert(class_of(references[indices[k] as int].label) == class);
        } else {
            if class != class_of(label) {
                lemma_class_bits_differ(class_of(label), class);
            }
            assert(class_of(references[indices[i] as int].label) == class);
        }
    }
}

/// Adds lanes that hold no reference.
fn add_fillers(count: usize, lanes: &mut Vec<Lane>)
    ensures
        final(lanes)@.len() == old(lanes)@.len() + count,
        forall|p: int|
            0 <= p < old(lanes)@.len() ==> #[trigger] final(lanes)@[p] == old(lanes)@[p],
        forall|p: int|
            old(lanes)@.len() <= p < final(lanes)@.len() ==> is_filler(
                #[trigger] final(lanes)@[p],
            ),
{
    let mut j: usize = 0;
    while j < count
        invariant
            j <= count,
            lanes@.len() == old(lanes)@.len() + j,
            forall|p: int|
                0 <= p < old(lanes)@.len() ==> #[trigger] lanes@[p] == old(lanes)@[p],
            forall|p: int|
                old(lanes)@.len() <= p < lanes@.len() ==> is_filler(#[trigger] lanes@[p]),
        decreases count - j,
    {
        lanes.push(Lane { vector: [0i16; DIMS], label: 0, ref_index: u32::MAX });
        j = j + 1;
    }
}

/// Writes references behind others and fills up the last block; tells which labels they have.
fn fill_leaf(references: &[Reference], indices: &Vec<usize>, lanes: &mut Vec<Lane>) -> (r: u8)
    requires
        split::in_range(references@, indices@),
        indices@.len() <= MAX_REFERENCES,
        references@.len() <= MAX_REFERENCES,
    ensures
        final(lanes)@.len() == old(lanes)@.len() + (indices@.len() + 7) / 8 * 8,
        forall|p: int|
            0 <= p < old(lanes)@.len() ==> #[trigger] final(lanes)@[p] == old(lanes)@[p],
        forall|k: int|
            #![trigger indices@[k]]
            0 <= k < indices@.len() ==> {
                let lane = final(lanes)@[old(lanes)@.len() + k];
                &&& lane.ref_index == indices@[k]
                &&& holds_reference(lane, references@)
                &&& r & class_bit(lane.label) != 0
            },
        forall|p: int|
            old(lanes)@.len() + indices@.len() <= p < final(lanes)@.len() ==> is_filler(
                #[trigger] final(lanes)@[p],
            ),
        forall|class: u8|
            class < 8 && r & (1u8 << class) != 0 ==> #[trigger] class_among(
                references@,
                indices@,
                indices@.len() as int,
                class,
            ),
{
    let ghost start = lanes@.len() as int;
    let mut bits: u8 = 0;
    let mut i: usize = 0;
    assert(forall|class: u8| 0u8 & (1u8 << class) == 0) by (bit_vector);
    while i < indices.len()
        invariant
            i <= indices@.len(),
            forall|class: u8|
                class < 8 && bits & (1u8 << class) != 0 ==> #[trigger] class_among(
                    references@,
                    indices@,
                    i as int,
                    class,
                ),
            split::in_range(references@, indices@),
            references@.len() <= MAX_REFERENCES,
            start == old(lanes)@.len(),
            lanes@.len() == start + i,
            forall|p: int| 0 <= p < start ==> #[trigger] lanes@[p] == old(lanes)@[p],
            forall|k: int|
                #![trigger indices@[k]]
                0 <= k < i ==> {
                    let lane = lanes@[start + k];
                    &&& lane.ref_index == indices@[k]
                    &&& holds_reference(lane, references@)
                    &&& bits & class_bit(lane.label) != 0
                },
        decreases indices@.len() - i,
    {
        let idx: usize = indices[i];
        let label: u8 = references[idx].label;
        let ghost before = bits;
        let ghost shorter = lanes@;
        bits = bits | bit_of(label);
        lanes.push(
            Lane { vector: meaningful(&references[idx].vector), label, ref_index: idx as u32 },
        );
        proof {
            lemma_bit_is_set(before, label);
            lemma_class_added(references@, indices@, i as int, before);
            assert forall|k: int|
                #![trigger indices@[k]]
                0 <= k < i + 1 implies {
                let lane = lanes@[start + k];
                &&& lane.ref_index == indices@[k]
                &&& holds_reference(lane, references@)
                &&& bits & class_bit(lane.label) != 0
            } by {
                if k < i {
                    assert(lanes@[start + k] == shorter[start + k]);
                    assert(shorter[start + k].ref_index == indices@[k]);
                    lemma_bits_stay(before, class_bit(label), class_bit(lanes@[start + k].label));
                }
            }
        }
        i = i + 1;
    }
    let n: usize = indices.len();
    let ghost filled = lanes@;
    add_fillers((8 - n % 8) % 8, lanes);
    proof {
        assert forall|k: int|
            #![trigger indices@[k]]
            0 <= k < indices@.len() implies {
            let lane = lanes@[start + k];
            &&& lane.ref_index == indices@[k]
            &&& holds_reference(lane, references@)
            &&& bits & class_bit(lane.label) != 0
        } by {
            assert(lanes@[start + k] == filled[start + k]);
        }
    }
    bits
}

/// Place `p` is in a block of a leaf among the nodes from `from` on.
pub open spec fn in_block(nodes: Seq<Node>, from: int, p: int) -> bool {
    exists|j: int|
        from <= j < nodes.len() && (#[trigger] nodes[j]).is_leaf() && nodes[j].start * 8 <= p < (
        nodes[j].start + nodes[j].blocks()) * 8
}

/// The tree was grown behind the other nodes and references: all its nodes are good, it holds the
/// references of the indices, and all that is new belongs to it.
pub open spec fn grown(
    references: Seq<Reference>,
    indices: Seq<usize>,
    old_nodes: Seq<Node>,
    old_lanes: Seq<Lane>,
    nodes: Seq<Node>,
    lanes: Seq<Lane>,
) -> bool {
    let root = old_nodes.len() as int;
    &&& root < nodes.len()
    &&& nodes.len() < old_nodes.len() + 2 * indices.len()
    &&& old_lanes.len() <= lanes.len() <= old_lanes.len() + 8 * indices.len()
    &&& lanes.len() % 8 == 0
    &&& forall|j: int| 0 <= j < old_nodes.len() ==> #[trigger] nodes[j] == old_nodes[j]
    &&& forall|p: int| 0 <= p < old_lanes.len() ==> #[trigger] lanes[p] == old_lanes[p]
    &&& forall|j: int|
        root <= j < nodes.len() ==> #[trigger] node_good(references, nodes, lanes, j)
    &&& holds_indices(nodes, lanes, root, indices)
    &&& forall|p: int| #[trigger]
        covers(nodes, root).contains(p) ==> old_lanes.len() <= p < lanes.len()
    &&& height(nodes, root) <= levels(indices.len())
    &&& split::is_box(references, indices, nodes[root].min@, nodes[root].max@)
    &&& nodes[root].len == indices.len()
    &&& nodes[root].start >= 0
    &&& forall|j: int| root <= j < nodes.len() ==> #[trigger] family(nodes, root).contains(j)
    &&& forall|p: int|
        old_lanes.len() <= p < lanes.len() ==> #[trigger] in_block(nodes, root, p)
}

/// A leaf over the references was grown.
proof fn lemma_leaf_grown(
    references: Seq<Reference>,
    indices: Seq<usize>,
    old_nodes: Seq<Node>,
    old_lanes: Seq<Lane>,
    nodes: Seq<Node>,
    lanes: Seq<Lane>,
)
    requires
        split::in_range(references, indices),
        indices.no_duplicates(),
        0 < indices.len() <= MAX_REFERENCES,
        old_lanes.len() % 8 == 0,
        nodes.len() == old_nodes.len() + 1,
        forall|j: int| 0 <= j < old_nodes.len() ==> #[trigger] nodes[j] == old_nodes[j],
        lanes.len() == old_lanes.len() + (indices.len() + 7) / 8 * 8,
        forall|p: int| 0 <= p < old_lanes.len() ==> #[trigger] lanes[p] == old_lanes[p],
        ({
            let node = nodes[old_nodes.len() as int];
            &&& node.is_leaf()
            &&& node.start * 8 == old_lanes.len()
            &&& node.len == indices.len()
            &&& split::is_box(references, indices, node.min@, node.max@)
            &&& forall|k: int|
                #![trigger indices[k]]
                0 <= k < indices.len() ==> {
                    let lane = lanes[old_lanes.len() + k];
                    &&& lane.ref_index == indices[k]
                    &&& holds_reference(lane, references)
                    &&& node.class_bits & class_bit(lane.label) != 0
                }
            &&& forall|class: u8|
                class < 8 && node.class_bits & (1u8 << class) != 0 ==> #[trigger] class_among(
                    references,
                    indices,
                    indices.len() as int,
                    class,
                )
        }),
        forall|p: int|
            old_lanes.len() + indices.len() <= p < lanes.len() ==> is_filler(#[trigger] lanes[p]),
    ensures
        grown(references, indices, old_nodes, old_lanes, nodes, lanes),
{
    let root = old_nodes.len() as int;
    let node = nodes[root];
    let below = covers(nodes, root);
    let start = old_lanes.len() as int;
    assert(below =~= Set::new(|p: int| start <= p < start + indices.len()));
    assert(below.contains(start));
    assert forall|p: int| #[trigger] below.contains(p) implies belongs(references, node, lanes[p])
        && indices.contains(lanes[p].ref_index as usize) by {
        let k = p - start;
        assert(lanes[start + k].ref_index == indices[k]);
        let vector = references[indices[k] as int].vector@;
        assert forall|d: int| 0 <= d < PACKED_DIMS implies node.min@[d] <= #[trigger] vector[d]
            <= node.max@[d] by {
            assert(split::goes(references, indices, d, node.min@[d], node.max@[d]));
            assert(split::coordinate(references, indices, k, d) == vector[d]);
        }
    }
    assert forall|x: usize| #[trigger] indices.contains(x) implies exists|p: int| #[trigger]
        below.contains(p) && lanes[p].ref_index == x by {
        let k = choose|k: int| 0 <= k < indices.len() && indices[k] == x;
        assert(lanes[start + k].ref_index == indices[k]);
        assert(below.contains(start + k));
    }
    assert forall|p: int, q: int| #[trigger]
        below.contains(p) && #[trigger] below.contains(q) && p != q implies lanes[p].ref_index
        != lanes[q].ref_index by {
        assert(lanes[start + (p - start)].ref_index == indices[p - start]);
        assert(lanes[start + (q - start)].ref_index == indices[q - start]);
    }
    assert(levels(indices.len()) >= 1);
    assert(height(nodes, root) == 1);
    assert forall|class: u8| class < 8 implies (#[trigger] has_class(nodes, lanes, root, class)
        <==> node.class_bits & (1u8 << class) != 0) by {
        if has_class(nodes, lanes, root, class) {
            let p = choose|p: int| #[trigger]
                below.contains(p) && class_of(lanes[p].label) == class;
            assert(belongs(references, node, lanes[p]));
        }
        if node.class_bits & (1u8 << class) != 0 {
            assert(class_among(references, indices, indices.len() as int, class));
            let k = choose|k: int|
                0 <= k < indices.len() && class_of(
                    references[(#[trigger] indices[k]) as int].label,
                ) == class;
            assert(lanes[start + k].ref_index == indices[k]);
            assert(below.contains(start + k));
        }
    }
    assert forall|p: int| start <= p < lanes.len() implies #[trigger] in_block(nodes, root, p) by {
        assert(nodes[root].is_leaf());
    }
}

/// Two grown trees were put together.
proof fn lemma_node_grown(
    references: Seq<Reference>,
    indices: Seq<usize>,
    left: Seq<usize>,
    right: Seq<usize>,
    old_nodes: Seq<Node>,
    old_lanes: Seq<Lane>,
    first: Seq<Node>,
    left_nodes: Seq<Node>,
    left_lanes: Seq<Lane>,
    right_nodes: Seq<Node>,
    lanes: Seq<Lane>,
    nodes: Seq<Node>,
)
    requires
        split::in_range(references, indices),
        indices.no_duplicates(),
        8 < indices.len() <= MAX_REFERENCES,
        left.len() == indices.len() / 2,
        right.len() == indices.len() - indices.len() / 2,
        forall|x: usize| #[trigger] left.contains(x) ==> indices.contains(x) && !right.contains(x),
        forall|x: usize| #[trigger] right.contains(x) ==> indices.contains(x),
        forall|x: usize| #[trigger] indices.contains(x) ==> left.contains(x) || right.contains(x),
        first.len() == old_nodes.len() + 1,
        forall|j: int| 0 <= j < old_nodes.len() ==> #[trigger] first[j] == old_nodes[j],
        grown(references, left, first, old_lanes, left_nodes, left_lanes),
        grown(references, right, left_nodes, left_lanes, right_nodes, lanes),
        nodes.len() == right_nodes.len() <= 0x7fff_ffff,
        forall|j: int|
            0 <= j < nodes.len() && j != old_nodes.len() ==> #[trigger] nodes[j] == right_nodes[j],
        ({
            let node = nodes[old_nodes.len() as int];
            let l = right_nodes[first.len() as int];
            let r = right_nodes[left_nodes.len() as int];
            &&& node.left == first.len()
            &&& node.right == left_nodes.len()
            &&& node.start == l.start
            &&& node.len == indices.len()
            &&& split::is_box(references, indices, node.min@, node.max@)
            &&& node.class_bits == l.class_bits | r.class_bits
        }),
    ensures
        grown(references, indices, old_nodes, old_lanes, nodes, lanes),
{
    let root = old_nodes.len() as int;
    let node = nodes[root];
    let li = first.len() as int;
    let ri = left_nodes.len() as int;
    assert forall|j: int| root < j < nodes.len() implies #[trigger] node_good(
        references,
        nodes,
        lanes,
        j,
    ) by {
        if j < ri {
            assert forall|k: int| j <= k < left_nodes.len() implies #[trigger] nodes[k]
                == left_nodes[k] by {
                assert(right_nodes[k] == left_nodes[k]);
            }
            lemma_subtree_stays(references, left_nodes, left_lanes, nodes, lanes, j);
        } else {
            lemma_subtree_stays(references, right_nodes, lanes, nodes, lanes, j);
        }
    }
    assert forall|k: int| li <= k < left_nodes.len() implies #[trigger] nodes[k] == left_nodes[k] by {
        assert(right_nodes[k] == left_nodes[k]);
    }
    lemma_subtree_stays(references, left_nodes, left_lanes, nodes, lanes, li);
    lemma_subtree_stays(references, right_nodes, lanes, nodes, lanes, ri);
    let cl = covers(nodes, li);
    let cr = covers(nodes, ri);
    let below = covers(nodes, root);
    assert(below =~= cl.union(cr));
    assert(nodes[li] == right_nodes[li]);
    assert(nodes[ri] == right_nodes[ri]);
    assert forall|p: int| #[trigger] below.contains(p) implies {
        &&& belongs(references, node, lanes[p])
        &&& indices.contains(lanes[p].ref_index as usize)
        &&& old_lanes.len() <= p < lanes.len()
    } by {
        assert(cl.contains(p) || cr.contains(p));
        let x = lanes[p].ref_index as usize;
        if cl.contains(p) {
            assert(covers(left_nodes, li).contains(p));
            assert(lanes[p] == left_lanes[p]);
            assert(left.contains(x));
            assert(node_good(references, nodes, lanes, li));
            assert(belongs(references, nodes[li], lanes[p]));
            lemma_bits_stay(
                nodes[li].class_bits,
                nodes[ri].class_bits,
                class_bit(lanes[p].label),
            );
        } else {
            assert(covers(right_nodes, ri).contains(p));
            assert(right.contains(x));
            assert(node_good(references, nodes, lanes, ri));
            assert(belongs(references, nodes[ri], lanes[p]));
            lemma_bits_stay(
                nodes[ri].class_bits,
                nodes[li].class_bits,
                class_bit(lanes[p].label),
            );
        }
        let k = choose|k: int| 0 <= k < indices.len() && indices[k] == x;
        let vector = references[x as int].vector@;
        assert forall|d: int| 0 <= d < PACKED_DIMS implies node.min@[d] <= #[trigger] vector[d]
            <= node.max@[d] by {
            assert(split::goes(references, indices, d, node.min@[d], node.max@[d]));
            assert(split::coordinate(references, indices, k, d) == vector[d]);
        }
    }
    assert(cl.disjoint(cr)) by {
        assert forall|p: int| cl.contains(p) implies !cr.contains(p) by {
            assert(covers(left_nodes, li).contains(p));
            if cr.contains(p) {
                assert(covers(right_nodes, ri).contains(p));
            }
        }
    }
    assert(inhabited(nodes, root)) by {
        assert(node_good(references, nodes, lanes, li));
        let w = choose|p: int| #[trigger] cl.contains(p);
        assert(below.contains(w));
    }
    assert forall|x: usize| #[trigger] indices.contains(x) implies exists|p: int| #[trigger]
        below.contains(p) && lanes[p].ref_index == x by {
        if left.contains(x) {
            let p = choose|p: int| #[trigger]
                covers(left_nodes, li).contains(p) && left_lanes[p].ref_index == x;
            assert(cl.contains(p));
            assert(below.contains(p));
            assert(lanes[p] == left_lanes[p]);
        } else {
            let p = choose|p: int| #[trigger]
                covers(right_nodes, ri).contains(p) && lanes[p].ref_index == x;
            assert(cr.contains(p));
            assert(below.contains(p));
        }
    }
    assert forall|p: int, q: int| #[trigger]
        below.contains(p) && #[trigger] below.contains(q) && p != q implies lanes[p].ref_index
        != lanes[q].ref_index by {
        assert(cl.contains(p) || cr.contains(p));
        assert(cl.contains(q) || cr.contains(q));
        assert(cl.contains(p) ==> covers(left_nodes, li).contains(p) && lanes[p]
            == left_lanes[p]);
        assert(cl.contains(q) ==> covers(left_nodes, li).contains(q) && lanes[q]
            == left_lanes[q]);
        assert(cr.contains(p) ==> covers(right_nodes, ri).contains(p));
        assert(cr.contains(q) ==> covers(right_nodes, ri).contains(q));
        let x = lanes[p].ref_index as usize;
        let y = lanes[q].ref_index as usize;
        if cl.contains(p) && cr.contains(q) {
            assert(left.contains(x) && right.contains(y));
        } else if cr.contains(p) && cl.contains(q) {
            assert(right.contains(x) && left.contains(y));
        }
    }
    lemma_levels_grow(left.len(), right.len());
    lemma_levels_bounded(indices.len());
    assert(levels(indices.len()) == 1 + levels(right.len()));
    assert forall|class: u8| class < 8 implies (#[trigger] has_class(nodes, lanes, root, class)
        <==> node.class_bits & (1u8 << class) != 0) by {
        let bit = 1u8 << class;
        lemma_bits_join(nodes[li].class_bits, nodes[ri].class_bits, bit);
        assert(node_good(references, nodes, lanes, li) && node_good(references, nodes, lanes, ri));
        assert(has_class(nodes, lanes, li, class) <==> nodes[li].class_bits & bit != 0);
        assert(has_class(nodes, lanes, ri, class) <==> nodes[ri].class_bits & bit != 0);
        if has_class(nodes, lanes, root, class) {
            let p = choose|p: int| #[trigger]
                below.contains(p) && class_of(lanes[p].label) == class;
            assert(cl.contains(p) || cr.contains(p));
        }
        if has_class(nodes, lanes, li, class) {
            let p = choose|p: int| #[trigger] cl.contains(p) && class_of(lanes[p].label) == class;
            assert(below.contains(p));
        }
        if has_class(nodes, lanes, ri, class) {
            let p = choose|p: int| #[trigger] cr.contains(p) && class_of(lanes[p].label) == class;
            assert(below.contains(p));
        }
    }
    assert forall|j: int| li <= j < ri implies #[trigger] family(nodes, root + 1).contains(j) by {
        assert(family(left_nodes, li).contains(j));
    }
    assert forall|j: int| root <= j < nodes.len() implies #[trigger] family(nodes, root).contains(
        j,
    ) by {
        if root < j < ri {
            assert(family(left_nodes, li).contains(j));
            assert(family(nodes, li).contains(j));
        } else if j >= ri {
            assert(family(right_nodes, ri).contains(j));
            assert(family(nodes, ri).contains(j));
        }
    }
    assert forall|p: int| old_lanes.len() <= p < lanes.len() implies #[trigger] in_block(
        nodes,
        root,
        p,
    ) by {
        if p < left_lanes.len() {
            assert(in_block(left_nodes, li, p));
            let j = choose|j: int|
                li <= j < left_nodes.len() && (#[trigger] left_nodes[j]).is_leaf()
                    && left_nodes[j].start * 8 <= p < (left_nodes[j].start
                    + left_nodes[j].blocks()) * 8;
            assert(nodes[j] == left_nodes[j]);
        } else {
            assert(in_block(right_nodes, ri, p));
            let j = choose|j: int|
                ri <= j < right_nodes.len() && (#[trigger] right_nodes[j]).is_leaf()
                    && right_nodes[j].start * 8 <= p < (right_nodes[j].start
                    + right_nodes[j].blocks()) * 8;
            assert(nodes[j] == right_nodes[j]);
        }
    }
    assert(node_fits(nodes, lanes, root));
    assert(node_good(references, nodes, lanes, root));
}

proof fn lemma_indices_stay(
    below: Set<int>,
    lanes: Seq<Lane>,
    more_lanes: Seq<Lane>,
    nodes: Seq<Node>,
    more_nodes: Seq<Node>,
    i: int,
    indices: Seq<usize>,
)
    requires
        below == covers(nodes, i),
        below == covers(more_nodes, i),
        forall|p: int| #[trigger] below.contains(p) ==> more_lanes[p] == lanes[p],
        holds_indices(nodes, lanes, i, indices),
    ensures
        holds_indices(more_nodes, more_lanes, i, indices),
{
    assert forall|x: usize| #[trigger] indices.contains(x) implies exists|p: int| #[trigger]
        below.contains(p) && more_lanes[p].ref_index == x by {
        let p = choose|p: int| #[trigger] below.contains(p) && lanes[p].ref_index == x;
        assert(below.contains(p) && more_lanes[p].ref_index == x);
    }
}

proof fn lemma_split_stays(
    references: Seq<Reference>,
    strategy: KdSplitStrategy,
    nodes: Seq<Node>,
    lanes: Seq<Lane>,
    more_nodes: Seq<Node>,
    more_lanes: Seq<Lane>,
    i: int,
    indices: Seq<usize>,
    dim: int,
)
    requires
        more_nodes[i] == nodes[i],
        covers(more_nodes, nodes[i].left as int) == covers(nodes, nodes[i].left as int),
        covers(more_nodes, nodes[i].right as int) == covers(
            nodes,
            nodes[i].right as int,
        ),
        forall|p: int| #[trigger]
            covers(nodes, nodes[i].left as int).contains(p) ==> more_lanes[p] == lanes[p],
        forall|p: int| #[trigger]
            covers(nodes, nodes[i].right as int).contains(p) ==> more_lanes[p] == lanes[p],
        splits_at(references, strategy, nodes, lanes, i, indices, dim),
    ensures
        splits_at(references, strategy, more_nodes, more_lanes, i, indices, dim),
{
}

proof fn lemma_shape_kept(
    references: Seq<Reference>,
    leaf_size: usize,
    strategy: KdSplitStrategy,
    nodes: Seq<Node>,
    lanes: Seq<Lane>,
    more_nodes: Seq<Node>,
    more_lanes: Seq<Lane>,
    i: int,
    indices: Seq<usize>,
)
    requires
        0 <= i < nodes.len() <= more_nodes.len(),
        lanes.len() <= more_lanes.len(),
        forall|j: int| i <= j < nodes.len() ==> #[trigger] more_nodes[j] == nodes[j],
        forall|p: int| 0 <= p < lanes.len() ==> #[trigger] more_lanes[p] == lanes[p],
        covers(more_nodes, i) == covers(nodes, i),
        forall|p: int| #[trigger] covers(nodes, i).contains(p) ==> 0 <= p < lanes.len(),
        !nodes[i].is_leaf() ==> {
            let l = nodes[i].left as int;
            let r = nodes[i].right as int;
            &&& covers(more_nodes, l) == covers(nodes, l)
            &&& covers(more_nodes, r) == covers(nodes, r)
            &&& forall|p: int| #[trigger]
                covers(nodes, l).contains(p) ==> 0 <= p < lanes.len()
            &&& forall|p: int| #[trigger]
                covers(nodes, r).contains(p) ==> 0 <= p < lanes.len()
        },
        node_over(references, leaf_size, strategy, nodes, lanes, i, indices),
    ensures
        node_over(references, leaf_size, strategy, more_nodes, more_lanes, i, indices),
{
    reveal(node_over);
    let node = nodes[i];
    assert(more_nodes[i] == node);
    let below = covers(nodes, i);
    lemma_indices_stay(below, lanes, more_lanes, nodes, more_nodes, i, indices);
    if !node.is_leaf() {
        let dim = choose|dim: int|
            #[trigger] splits_at(references, strategy, nodes, lanes, i, indices, dim);
        lemma_split_stays(
            references,
            strategy,
            nodes,
            lanes,
            more_nodes,
            more_lanes,
            i,
            indices,
            dim,
        );
    }
}

/// More nodes in front and behind, and more references behind, leave a node its shape.
pub proof fn lemma_shape_stays(
    references: Seq<Reference>,
    leaf_size: usize,
    strategy: KdSplitStrategy,
    nodes: Seq<Node>,
    lanes: Seq<Lane>,
    more_nodes: Seq<Node>,
    more_lanes: Seq<Lane>,
    i: int,
)
    requires
        0 <= i < nodes.len() <= more_nodes.len(),
        lanes.len() <= more_lanes.len(),
        forall|j: int| i <= j < nodes.len() ==> #[trigger] more_nodes[j] == nodes[j],
        forall|p: int| 0 <= p < lanes.len() ==> #[trigger] more_lanes[p] == lanes[p],
        forall|j: int| i <= j < nodes.len() ==> #[trigger] node_good(references, nodes, lanes, j),
        shape_good(references, leaf_size, strategy, nodes, lanes, i),
    ensures
        shape_good(references, leaf_size, strategy, more_nodes, more_lanes, i),
{
    let indices = choose|indices: Seq<usize>|
        #[trigger] node_over(references, leaf_size, strategy, nodes, lanes, i, indices);
    lemma_subtree_stays(references, nodes, lanes, more_nodes, more_lanes, i);
    let node = nodes[i];
    if !node.is_leaf() {
        let l = node.left as int;
        let r = node.right as int;
        assert(node_fits(nodes, lanes, i)) by {
            assert(node_good(references, nodes, lanes, i));
        }
        lemma_subtree_stays(references, nodes, lanes, more_nodes, more_lanes, l);
        lemma_subtree_stays(references, nodes, lanes, more_nodes, more_lanes, r);
    }
    lemma_shape_kept(
        references,
        leaf_size,
        strategy,
        nodes,
        lanes,
        more_nodes,
        more_lanes,
        i,
        indices,
    );
}

/// Grows a tree over references behind the nodes and references there are: a leaf where there are
/// few, else two trees, of the references in the lower and the upper half in one dimension.
pub fn build_node(
    references: &[Reference],
    indices: &Vec<usize>,
    leaf_size: usize,
    split_strategy: KdSplitStrategy,
    lanes: &mut Vec<Lane>,
    nodes: &mut Vec<Node>,
) -> (r: usize)
    requires
        split::in_range(references@, indices@),
        indices@.no_duplicates(),
        0 < indices@.len() <= MAX_REFERENCES,
        references@.len() <= MAX_REFERENCES,
        8 <= leaf_size,
        old(lanes)@.len() % 8 == 0,
        old(lanes)@.len() + 8 * indices@.len() <= 8 * MAX_REFERENCES,
        old(nodes)@.len() + 2 * indices@.len() <= 2 * MAX_REFERENCES,
    ensures
        r == old(nodes)@.len(),
        grown(
            references@,
            indices@,
            old(nodes)@,
            old(lanes)@,
            final(nodes)@,
            final(lanes)@,
        ),
        forall|j: int|
            r <= j < final(nodes)@.len() ==> #[trigger] shape_good(
                references@,
                leaf_size,
                split_strategy,
                final(nodes)@,
                final(lanes)@,
                j,
            ),
    decreases indices@.len(),
{
    let (min, max) = split::bounding_box(references, indices);
    let node_idx: usize = nodes.len();
    if indices.len() <= leaf_size {
        let start: usize = lanes.len() / 8;
        let class_bits: u8 = fill_leaf(references, indices, lanes);
        nodes.push(
            Node {
                left: -1,
                right: -1,
                start: start as i32,
                len: indices.len() as i32,
                min,
                max,
                class_bits,
            },
        );
        proof {
            let node = nodes@[node_idx as int];
            assert(node.start * 8 == old(lanes)@.len());
            assert(node.class_bits == class_bits);
            assert(split::is_box(references@, indices@, node.min@, node.max@));
            assert forall|k: int|
                #![trigger indices@[k]]
                0 <= k < indices@.len() implies {
                let lane = lanes@[old(lanes)@.len() + k];
                &&& lane.ref_index == indices@[k]
                &&& holds_reference(lane, references@)
                &&& node.class_bits & class_bit(lane.label) != 0
            } by {}
            lemma_leaf_grown(
                references@,
                indices@,
                old(nodes)@,
                old(lanes)@,
                nodes@,
                lanes@,
            );
            reveal(node_over);
            assert(node_over(
                references@,
                leaf_size,
                split_strategy,
                nodes@,
                lanes@,
                node_idx as int,
                indices@,
            ));
        }
        return node_idx;
    }
    nodes.push(Node { left: -1, right: -1, start: 0, len: 0, min, max, class_bits: 0 });
    let ghost first = nodes@;
    let split_dim: usize = match split_strategy {
        KdSplitStrategy::Widest => split::widest_dimension(&min, &max),
        KdSplitStrategy::Variance => split::variance_dimension(references, indices, &min, &max),
    };
    let sorted = split::sort_indices(references, indices, split_dim);
    let half: usize = sorted.len() / 2;
    let (left, right) = split_at(&sorted, half);
    proof {
        lemma_halves(sorted@, half as int);
        assert(split::in_range(references@, left@)) by {
            assert forall|k: int| 0 <= k < left@.len() implies (#[trigger] left@[k])
                < references@.len() by {
                assert(left@[k] == sorted@[k]);
            }
        }
        assert(split::in_range(references@, right@)) by {
            assert forall|k: int| 0 <= k < right@.len() implies (#[trigger] right@[k])
                < references@.len() by {
                assert(right@[k] == sorted@[half + k]);
            }
        }
    }
    let l: usize = build_node(references, &left, leaf_size, split_strategy, lanes, nodes);
    let ghost left_nodes = nodes@;
    let ghost left_lanes = lanes@;
    let r: usize = build_node(references, &right, leaf_size, split_strategy, lanes, nodes);
    let ghost right_nodes = nodes@;
    proof {
        assert(right_nodes[l as int] == left_nodes[l as int]);
    }
    let left_info = nodes[l];
    let right_info = nodes[r];
    nodes.set(
        node_idx,
        Node {
            left: l as i32,
            right: r as i32,
            start: left_info.start,
            len: left_info.len + right_info.len,
            min,
            max,
            class_bits: left_info.class_bits | right_info.class_bits,
        },
    );
    proof {
        assert forall|x: usize| #[trigger] indices@.contains(x) implies left@.contains(x)
            || right@.contains(x) by {
            assert(sorted@.contains(x));
        }
        lemma_node_grown(
            references@,
            indices@,
            left@,
            right@,
            old(nodes)@,
            old(lanes)@,
            first,
            left_nodes,
            left_lanes,
            right_nodes,
            lanes@,
            nodes@,
        );
        lemma_node_shaped(
            references@,
            leaf_size,
            split_strategy,
            indices@,
            sorted@,
            half as int,
            split_dim as int,
            old(nodes)@,
            old(lanes)@,
            first,
            left_nodes,
            left_lanes,
            right_nodes,
            lanes@,
            nodes@,
        );
    }
    node_idx
}

/// Two grown trees of the right shape that were put together have it too.
proof fn lemma_node_shaped(
    references: Seq<Reference>,
    leaf_size: usize,
    strategy: KdSplitStrategy,
    indices: Seq<usize>,
    sorted: Seq<usize>,
    half: int,
    dim: int,
    old_nodes: Seq<Node>,
    old_lanes: Seq<Lane>,
    first: Seq<Node>,
    left_nodes: Seq<Node>,
    left_lanes: Seq<Lane>,
    right_nodes: Seq<Node>,
    lanes: Seq<Lane>,
    nodes: Seq<Node>,
)
    requires
        leaf_size < indices.len(),
        sorted.len() == indices.len(),
        half == sorted.len() / 2,
        first.len() == old_nodes.len() + 1,
        split::ordered(references, sorted, dim),
        grown(
            references,
            sorted.subrange(0, half),
            first,
            old_lanes,
            left_nodes,
            left_lanes,
        ),
        grown(
            references,
            sorted.subrange(half, sorted.len() as int),
            left_nodes,
            left_lanes,
            right_nodes,
            lanes,
        ),
        grown(references, indices, old_nodes, old_lanes, nodes, lanes),
        nodes.len() == right_nodes.len(),
        forall|j: int|
            0 <= j < nodes.len() && j != old_nodes.len() ==> #[trigger] nodes[j] == right_nodes[j],
        forall|j: int|
            first.len() <= j < left_nodes.len() ==> #[trigger] shape_good(
                references,
                leaf_size,
                strategy,
                left_nodes,
                left_lanes,
                j,
            ),
        forall|j: int|
            left_nodes.len() <= j < right_nodes.len() ==> #[trigger] shape_good(
                references,
                leaf_size,
                strategy,
                right_nodes,
                lanes,
                j,
            ),
        ({
            let node = nodes[old_nodes.len() as int];
            &&& node.left == first.len()
            &&& node.right == left_nodes.len()
            &&& 0 <= dim < DIMS
            &&& match strategy {
                KdSplitStrategy::Widest => split::is_widest(dim, node.min@, node.max@),
                KdSplitStrategy::Variance => split::is_most_varied(
                    dim,
                    references,
                    indices,
                    node.min@,
                    node.max@,
                ),
            }
        }),
    ensures
        forall|j: int|
            old_nodes.len() <= j < nodes.len() ==> #[trigger] shape_good(
                references,
                leaf_size,
                strategy,
                nodes,
                lanes,
                j,
            ),
{
    let root = old_nodes.len() as int;
    let li = first.len() as int;
    let ri = left_nodes.len() as int;
    let left = sorted.subrange(0, half);
    let right = sorted.subrange(half, sorted.len() as int);
    assert forall|k: int| li <= k < left_nodes.len() implies #[trigger] nodes[k] == left_nodes[k] by {
        assert(right_nodes[k] == left_nodes[k]);
    }
    lemma_subtree_stays(references, left_nodes, left_lanes, nodes, lanes, li);
    lemma_subtree_stays(references, right_nodes, lanes, nodes, lanes, ri);
    assert(splits_at(references, strategy, nodes, lanes, root, indices, dim)) by {
        assert forall|p: int, q: int| #[trigger]
            covers(nodes, li).contains(p) && #[trigger] covers(nodes, ri).contains(
                q,
            ) implies reference_in(references, lanes[p]).vector@[dim] <= reference_in(
            references,
            lanes[q],
        ).vector@[dim] by {
            assert(covers(left_nodes, li).contains(p));
            assert(lanes[p] == left_lanes[p]);
            assert(covers(right_nodes, ri).contains(q));
            let x = lanes[p].ref_index as usize;
            let y = lanes[q].ref_index as usize;
            assert(left.contains(x) && right.contains(y));
            let a = choose|a: int| 0 <= a < left.len() && left[a] == x;
            let b = choose|b: int| 0 <= b < right.len() && right[b] == y;
            assert(sorted[a] == x && sorted[half + b] == y);
            assert(split::coordinate(references, sorted, a, dim) <= split::coordinate(
                references,
                sorted,
                half + b,
                dim,
            ));
        }
    }
    assert(nodes[li] == right_nodes[li] && nodes[ri] == right_nodes[ri]);
    assert(right_nodes[li] == left_nodes[li]);
    assert(node_over(references, leaf_size, strategy, nodes, lanes, root, indices)) by {
        reveal(node_over);
    }
    assert forall|j: int| root <= j < nodes.len() implies #[trigger] shape_good(
        references,
        leaf_size,
        strategy,
        nodes,
        lanes,
        j,
    ) by {
        if root < j < ri {
            assert forall|k: int| j <= k < left_nodes.len() implies #[trigger] nodes[k]
                == left_nodes[k] by {
                assert(right_nodes[k] == left_nodes[k]);
            }
            lemma_shape_stays(
                references,
                leaf_size,
                strategy,
                left_nodes,
                left_lanes,
                nodes,
                lanes,
                j,
            );
        } else if j >= ri {
            lemma_shape_stays(
                references,
                leaf_size,
                strategy,
                right_nodes,
                lanes,
                nodes,
                lanes,
                j,
            );
        }
    }
}

/// The elements in front of a position, and those from it on.
fn split_at(v: &Vec<usize>, at: usize) -> (r: (Vec<usize>, Vec<usize>))
    requires
        at <= v@.len(),
    ensures
        r.0@ == v@.subrange(0, at as int),
        r.1@ == v@.subrange(at as int, v@.len() as int),
{
    let mut front: Vec<usize> = Vec::new();
    let mut i: usize = 0;
    while i < at
        invariant
            i <= at <= v@.len(),
            front@ =~= v@.subrange(0, i as int),
        decreases at - i,
    {
        front.push(v[i]);
        i = i + 1;
    }
    let mut back: Vec<usize> = Vec::new();
    let mut j: usize = at;
    while j < v.len()
        invariant
            at <= j <= v@.len(),
            back@ =~= v@.subrange(at as int, j as int),
        decreases v@.len() - j,
    {
        back.push(v[j]);
        j = j + 1;
    }
    (front, back)
}

/// The two halves of a list without duplicates share nothing and make up the list.
proof fn lemma_halves(s: Seq<usize>, at: int)
    requires
        0 <= at <= s.len(),
        s.no_duplicates(),
    ensures
        s.subrange(0, at).no_duplicates(),
        s.subrange(at, s.len() as int).no_duplicates(),
        forall|x: usize| #[trigger]
            s.subrange(0, at).contains(x) ==> s.contains(x) && !s.subrange(
                at,
                s.len() as int,
            ).contains(x),
        forall|x: usize| #[trigger] s.subrange(at, s.len() as int).contains(x) ==> s.contains(x),
        forall|x: usize| #[trigger]
            s.contains(x) ==> s.subrange(0, at).contains(x) || s.subrange(
                at,
                s.len() as int,
            ).contains(x),
{
    let front = s.subrange(0, at);
    let back = s.subrange(at, s.len() as int);
    assert forall|x: usize| #[trigger] front.contains(x) implies s.contains(x) && !back.contains(
        x,
    ) by {
        let i = choose|i: int| 0 <= i < front.len() && front[i] == x;
        assert(s[i] == x);
        if back.contains(x) {
            let j = choose|j: int| 0 <= j < back.len() && back[j] == x;
            assert(s[at + j] == x);
        }
    }
    assert forall|x: usize| #[trigger] back.contains(x) implies s.contains(x) by {
        let j = choose|j: int| 0 <= j < back.len() && back[j] == x;
        assert(s[at + j] == x);
    }
    assert forall|x: usize| #[trigger] s.contains(x) implies front.contains(x) || back.contains(x) by {
        let i = choose|i: int| 0 <= i < s.len() && s[i] == x;
        if i < at {
            assert(front[i] == x);
        } else {
            assert(back[i - at] == x);
        }
    }
}

} // verus!
