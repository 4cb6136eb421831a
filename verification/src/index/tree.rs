//! The trees of the index and the search in one of them.

use vstd::prelude::*;

use crate::index::knn;
use crate::index::knn::Lane;
use crate::index::knn::Neighbours;
use crate::index::knn::FAR;
use crate::index::search;
use crate::index::search::PendingSubtrees;
use crate::index::trail;
use crate::index::trail::Trail;
use crate::QueryVector;
use crate::K;

verus! {

/// How many references a block holds.
pub const LANES: usize = 8;

/// How many subtrees a search can remember.
pub const TREE_STACK_CAPACITY: usize = 128;

/// A node: two subtrees, or a leaf with `len` references from block `start` on where a subtree is
/// missing. Its box holds all its references; its class bits say which labels they have.
#[derive(Clone, Copy, Debug)]
pub struct Node {
    pub left: i32,
    pub right: i32,
    pub start: i32,
    pub len: i32,
    pub min: QueryVector,
    pub max: QueryVector,
    pub class_bits: u8,
}

impl Node {
    pub open spec fn is_leaf(self) -> bool {
        self.left < 0 || self.right < 0
    }

    /// How many blocks a leaf takes.
    pub open spec fn blocks(self) -> int {
        (self.len + 7) / 8
    }
}

/// The trees of an index and the references in their leaves.
pub struct Forest {
    pub nodes: Vec<Node>,
    pub lanes: Vec<Lane>,
}

/// A leaf's blocks exist.
pub open spec fn leaf_fits(node: Node, lanes: Seq<Lane>) -> bool {
    node.len == 0 || {
        &&& node.start >= 0
        &&& node.len > 0
        &&& (node.start + node.blocks()) * 8 <= lanes.len()
    }
}

/// The tree below node `i` has at most `levels` levels, and all its nodes and blocks exist.
pub open spec fn stands(nodes: Seq<Node>, lanes: Seq<Lane>, i: int, levels: nat) -> bool
    decreases levels,
{
    &&& levels > 0
    &&& 0 <= i < nodes.len()
    &&& if nodes[i].is_leaf() {
        leaf_fits(nodes[i], lanes)
    } else {
        &&& stands(nodes, lanes, nodes[i].left as int, (levels - 1) as nat)
        &&& stands(nodes, lanes, nodes[i].right as int, (levels - 1) as nat)
    }
}

/// What is below node `i` is a tree: all its nodes and blocks exist, and no node is below itself, so
/// that it has no more levels than there are nodes.
pub open spec fn has_tree(nodes: Seq<Node>, lanes: Seq<Lane>, i: int) -> bool {
    stands(nodes, lanes, i, nodes.len())
}

/// The places of the references in the first levels below node `i`.
pub open spec fn covers_to(nodes: Seq<Node>, i: int, levels: nat) -> Set<int>
    decreases levels,
{
    if levels == 0 || i < 0 || i >= nodes.len() {
        Set::empty()
    } else if nodes[i].is_leaf() {
        let node = nodes[i];
        Set::new(|p: int| node.start * 8 <= p < node.start * 8 + node.len)
    } else {
        covers_to(nodes, nodes[i].left as int, (levels - 1) as nat).union(
            covers_to(nodes, nodes[i].right as int, (levels - 1) as nat),
        )
    }
}

/// The places of the references below node `i`.
pub open spec fn covers(nodes: Seq<Node>, i: int) -> Set<int> {
    covers_to(nodes, i, nodes.len())
}

/// The nodes in the first levels below node `i`.
pub open spec fn family_to(nodes: Seq<Node>, i: int, levels: nat) -> Set<int>
    decreases levels,
{
    if levels == 0 || i < 0 || i >= nodes.len() {
        Set::empty()
    } else if nodes[i].is_leaf() {
        Set::empty().insert(i)
    } else {
        family_to(nodes, nodes[i].left as int, (levels - 1) as nat).union(
            family_to(nodes, nodes[i].right as int, (levels - 1) as nat),
        ).insert(i)
    }
}

/// Node `i` and the nodes below it.
pub open spec fn family(nodes: Seq<Node>, i: int) -> Set<int> {
    family_to(nodes, i, nodes.len())
}

/// How many nodes there are in the first levels below node `i`, each counted as often as it is
/// reached.
pub open spec fn weight_to(nodes: Seq<Node>, i: int, levels: nat) -> nat
    decreases levels,
{
    if levels == 0 || i < 0 || i >= nodes.len() || nodes[i].is_leaf() {
        1
    } else {
        1 + weight_to(nodes, nodes[i].left as int, (levels - 1) as nat) + weight_to(
            nodes,
            nodes[i].right as int,
            (levels - 1) as nat,
        )
    }
}

/// How many nodes there are below node `i`, each counted as often as it is reached.
pub open spec fn weight(nodes: Seq<Node>, i: int) -> nat {
    weight_to(nodes, i, nodes.len())
}

/// No reference and no node is in both subtrees of a node below node `i`.
pub open spec fn apart(nodes: Seq<Node>, i: int) -> bool {
    forall|j: int| #[trigger]
        family(nodes, i).contains(j) && !nodes[j].is_leaf() ==> {
            &&& covers(nodes, nodes[j].left as int).disjoint(covers(nodes, nodes[j].right as int))
            &&& family(nodes, nodes[j].left as int).disjoint(family(nodes, nodes[j].right as int))
        }
}

/// The tree below node `i` has no more levels than a search can remember.
pub open spec fn shallow(nodes: Seq<Node>, lanes: Seq<Lane>, i: int) -> bool {
    stands(nodes, lanes, i, TREE_STACK_CAPACITY as nat)
}

/// A search in the tree below node `i` misses nothing: nothing is in it twice, and it does not have
/// too many levels.
pub open spec fn orderly(nodes: Seq<Node>, lanes: Seq<Lane>, i: int) -> bool {
    shallow(nodes, lanes, i) && apart(nodes, i)
}

/// The class bits of these nodes say which labels their references have, and there are only two.
pub open spec fn classes_hold(nodes: Seq<Node>, lanes: Seq<Lane>, kin: Set<int>) -> bool {
    forall|i: int, p: int|
        kin.contains(i) && #[trigger] covers(nodes, i).contains(p) ==> lanes[p].label <= 1
            && nodes[i].class_bits & (if lanes[p].label == 0 {
            1u8
        } else {
            2u8
        }) != 0
}

/// The distance of a query to a node's box.
pub open spec fn node_distance(nodes: Seq<Node>, query: Seq<i16>, i: int) -> int {
    knn::box_distance(query, nodes[i].min@, nodes[i].max@)
}

/// The distance of the reference at `p`, or that of the farthest box around it among the first `n`
/// nodes, those of `kin`, where this is larger.
pub open spec fn reach_among(
    nodes: Seq<Node>,
    lanes: Seq<Lane>,
    query: Seq<i16>,
    kin: Set<int>,
    p: int,
    n: nat,
) -> int
    decreases n,
{
    if n == 0 {
        knn::distance(query, lanes[p].vector@)
    } else {
        let before = reach_among(nodes, lanes, query, kin, p, (n - 1) as nat);
        let here = node_distance(nodes, query, n - 1);
        if kin.contains(n - 1) && covers(nodes, n - 1).contains(p) && here > before {
            here
        } else {
            before
        }
    }
}

/// How far away a search may take each reference to be: its distance, or that of a box around it
/// where this is larger. Boxes are measured over the stored dimensions, so that a box around a
/// vector is never farther than the vector is over these.
pub open spec fn reach(
    nodes: Seq<Node>,
    lanes: Seq<Lane>,
    query: Seq<i16>,
    kin: Set<int>,
) -> Seq<int> {
    Seq::new(lanes.len(), |p: int| reach_among(nodes, lanes, query, kin, p, nodes.len()))
}

/// The references below the nodes on a stack.
pub open spec fn stack_covers(nodes: Seq<Node>, stack: Seq<(usize, i64)>) -> Set<int>
    decreases stack.len(),
{
    if stack.len() == 0 {
        Set::empty()
    } else {
        stack_covers(nodes, stack.drop_last()).union(covers(nodes, stack.last().0 as int))
    }
}

/// No reference is below two nodes on a stack.
pub open spec fn stack_apart(nodes: Seq<Node>, stack: Seq<(usize, i64)>) -> bool
    decreases stack.len(),
{
    if stack.len() == 0 {
        true
    } else {
        &&& stack_apart(nodes, stack.drop_last())
        &&& stack_covers(nodes, stack.drop_last()).disjoint(covers(nodes, stack.last().0 as int))
    }
}

/// How many nodes there are below those on a stack.
pub open spec fn stack_weight(nodes: Seq<Node>, stack: Seq<(usize, i64)>) -> nat
    decreases stack.len(),
{
    if stack.len() == 0 {
        0
    } else {
        stack_weight(nodes, stack.drop_last()) + weight(nodes, stack.last().0 as int)
    }
}

/// No reference below node `i` reaches nearer than `bound`.
pub open spec fn bound_holds(nodes: Seq<Node>, reach: Seq<int>, i: int, bound: int) -> bool {
    forall|p: int| #[trigger] covers(nodes, i).contains(p) ==> reach[p] >= bound
}

/// All the places go with the key.
pub open spec fn holds_all(keyed: Set<(u32, int)>, key: u32, places: Set<int>) -> bool {
    forall|p: int| #[trigger] places.contains(p) ==> keyed.contains((key, p))
}

/// How many of the nodes are leaves.
pub open spec fn leaf_count(nodes: Seq<Node>, visited: Seq<int>) -> nat
    decreases visited.len(),
{
    if visited.len() == 0 {
        0
    } else {
        leaf_count(nodes, visited.drop_last()) + if nodes[visited.last()].is_leaf() {
            1nat
        } else {
            0
        }
    }
}

/// How many blocks the leaves among the nodes take.
pub open spec fn block_count(nodes: Seq<Node>, visited: Seq<int>) -> nat
    decreases visited.len(),
{
    if visited.len() == 0 {
        0
    } else {
        block_count(nodes, visited.drop_last()) + if nodes[visited.last()].is_leaf() {
            nodes[visited.last()].blocks() as nat
        } else {
            0
        }
    }
}

/// More levels change nothing once the tree ends.
pub proof fn lemma_more_levels(
    nodes: Seq<Node>,
    lanes: Seq<Lane>,
    i: int,
    levels: nat,
    more: nat,
)
    requires
        stands(nodes, lanes, i, levels),
        levels <= more,
    ensures
        stands(nodes, lanes, i, more),
        covers_to(nodes, i, more) == covers_to(nodes, i, levels),
        family_to(nodes, i, more) == family_to(nodes, i, levels),
        weight_to(nodes, i, more) == weight_to(nodes, i, levels),
    decreases levels,
{
    if !nodes[i].is_leaf() {
        let (l, r) = (nodes[i].left as int, nodes[i].right as int);
        lemma_more_levels(nodes, lanes, l, (levels - 1) as nat, (more - 1) as nat);
        lemma_more_levels(nodes, lanes, r, (levels - 1) as nat, (more - 1) as nat);
    }
}

/// Every node below node `i` has no more levels below it.
proof fn lemma_family_stands(nodes: Seq<Node>, lanes: Seq<Lane>, i: int, levels: nat, j: int)
    requires
        stands(nodes, lanes, i, levels),
        family_to(nodes, i, levels).contains(j),
    ensures
        stands(nodes, lanes, j, levels),
    decreases levels,
{
    if j != i {
        let (l, r) = (nodes[i].left as int, nodes[i].right as int);
        let fewer = (levels - 1) as nat;
        if family_to(nodes, l, fewer).contains(j) {
            lemma_family_stands(nodes, lanes, l, fewer, j);
        } else {
            lemma_family_stands(nodes, lanes, r, fewer, j);
        }
        lemma_more_levels(nodes, lanes, j, fewer, levels);
    }
}

/// What is below a node of a tree is below the tree's root.
pub proof fn lemma_family_covers(
    nodes: Seq<Node>,
    lanes: Seq<Lane>,
    i: int,
    levels: nat,
    j: int,
)
    requires
        stands(nodes, lanes, i, levels),
        family_to(nodes, i, levels).contains(j),
    ensures
        stands(nodes, lanes, j, levels),
        covers_to(nodes, j, levels).subset_of(covers_to(nodes, i, levels)),
    decreases levels,
{
    lemma_family_stands(nodes, lanes, i, levels, j);
    if j != i {
        let (l, r) = (nodes[i].left as int, nodes[i].right as int);
        let fewer = (levels - 1) as nat;
        if family_to(nodes, l, fewer).contains(j) {
            lemma_family_covers(nodes, lanes, l, fewer, j);
        } else {
            lemma_family_covers(nodes, lanes, r, fewer, j);
        }
        lemma_more_levels(nodes, lanes, j, fewer, levels);
    }
}

/// No node is below its own subtree.
proof fn lemma_not_below_itself(nodes: Seq<Node>, lanes: Seq<Lane>, i: int, c: int, levels: nat)
    requires
        stands(nodes, lanes, c, levels),
        0 <= i < nodes.len(),
        !nodes[i].is_leaf(),
        nodes[i].left == c || nodes[i].right == c,
    ensures
        !family_to(nodes, c, levels).contains(i),
    decreases levels,
{
    if family_to(nodes, c, levels).contains(i) {
        lemma_family_stands(nodes, lanes, c, levels, i);
        let fewer = (levels - 1) as nat;
        assert(stands(nodes, lanes, c, fewer));
        lemma_more_levels(nodes, lanes, c, fewer, levels);
        lemma_not_below_itself(nodes, lanes, i, c, fewer);
    }
}

/// A node with a tree is a leaf, or has two subtrees.
pub proof fn lemma_tree(nodes: Seq<Node>, lanes: Seq<Lane>, i: int)
    requires
        has_tree(nodes, lanes, i),
    ensures
        0 <= i < nodes.len(),
        weight(nodes, i) >= 1,
        family(nodes, i).contains(i),
        nodes[i].is_leaf() ==> {
            let node = nodes[i];
            &&& leaf_fits(node, lanes)
            &&& covers(nodes, i) == Set::new(
                |p: int| node.start * 8 <= p < node.start * 8 + node.len,
            )
            &&& family(nodes, i) == Set::<int>::empty().insert(i)
        },
        !nodes[i].is_leaf() ==> {
            let (l, r) = (nodes[i].left as int, nodes[i].right as int);
            &&& has_tree(nodes, lanes, l)
            &&& has_tree(nodes, lanes, r)
            &&& covers(nodes, i) == covers(nodes, l).union(covers(nodes, r))
            &&& family(nodes, i) == family(nodes, l).union(family(nodes, r)).insert(i)
            &&& weight(nodes, i) == 1 + weight(nodes, l) + weight(nodes, r)
            &&& !family(nodes, l).contains(i)
            &&& !family(nodes, r).contains(i)
        },
{
    let n = nodes.len();
    if !nodes[i].is_leaf() {
        let (l, r) = (nodes[i].left as int, nodes[i].right as int);
        lemma_more_levels(nodes, lanes, l, (n - 1) as nat, n);
        lemma_more_levels(nodes, lanes, r, (n - 1) as nat, n);
        lemma_not_below_itself(nodes, lanes, i, l, n);
        lemma_not_below_itself(nodes, lanes, i, r, n);
    }
}

/// What is apart below a node is apart below its subtrees.
proof fn lemma_apart_below(nodes: Seq<Node>, lanes: Seq<Lane>, i: int)
    requires
        has_tree(nodes, lanes, i),
        apart(nodes, i),
        !nodes[i].is_leaf(),
    ensures
        apart(nodes, nodes[i].left as int),
        apart(nodes, nodes[i].right as int),
        covers(nodes, nodes[i].left as int).disjoint(covers(nodes, nodes[i].right as int)),
        family(nodes, nodes[i].left as int).disjoint(family(nodes, nodes[i].right as int)),
{
    lemma_tree(nodes, lanes, i);
    let (l, r) = (nodes[i].left as int, nodes[i].right as int);
    assert forall|j: int| #[trigger]
        family(nodes, l).contains(j) && !nodes[j].is_leaf() implies {
        &&& covers(nodes, nodes[j].left as int).disjoint(covers(nodes, nodes[j].right as int))
        &&& family(nodes, nodes[j].left as int).disjoint(family(nodes, nodes[j].right as int))
    } by {
        assert(family(nodes, i).contains(j));
    }
    assert forall|j: int| #[trigger]
        family(nodes, r).contains(j) && !nodes[j].is_leaf() implies {
        &&& covers(nodes, nodes[j].left as int).disjoint(covers(nodes, nodes[j].right as int))
        &&& family(nodes, nodes[j].left as int).disjoint(family(nodes, nodes[j].right as int))
    } by {
        assert(family(nodes, i).contains(j));
    }
    assert(family(nodes, i).contains(i));
}

proof fn lemma_covers_to_in_range(nodes: Seq<Node>, lanes: Seq<Lane>, i: int, levels: nat)
    requires
        stands(nodes, lanes, i, levels),
    ensures
        forall|p: int| #[trigger] covers_to(nodes, i, levels).contains(p) ==> 0 <= p < lanes.len(),
    decreases levels,
{
    if !nodes[i].is_leaf() {
        let (l, r) = (nodes[i].left as int, nodes[i].right as int);
        let fewer = (levels - 1) as nat;
        lemma_covers_to_in_range(nodes, lanes, l, fewer);
        lemma_covers_to_in_range(nodes, lanes, r, fewer);
        assert forall|p: int| #[trigger] covers_to(nodes, i, levels).contains(p) implies 0 <= p
            < lanes.len() by {
            assert(covers_to(nodes, l, fewer).contains(p) || covers_to(nodes, r, fewer).contains(
                p,
            ));
        }
    }
}

pub proof fn lemma_covers_in_range(nodes: Seq<Node>, lanes: Seq<Lane>, i: int)
    requires
        has_tree(nodes, lanes, i),
    ensures
        forall|p: int| #[trigger] covers(nodes, i).contains(p) ==> 0 <= p < lanes.len(),
{
    lemma_covers_to_in_range(nodes, lanes, i, nodes.len());
}

/// Every node on the stack has a tree.
pub open spec fn stack_fits(
    nodes: Seq<Node>,
    lanes: Seq<Lane>,
    stack: Seq<(usize, i64)>,
) -> bool {
    forall|k: int|
        0 <= k < stack.len() ==> has_tree(nodes, lanes, (#[trigger] stack[k]).0 as int)
}

proof fn lemma_stack_covers_in_range(
    nodes: Seq<Node>,
    lanes: Seq<Lane>,
    stack: Seq<(usize, i64)>,
)
    requires
        stack_fits(nodes, lanes, stack),
    ensures
        forall|p: int| #[trigger] stack_covers(nodes, stack).contains(p) ==> 0 <= p < lanes.len(),
    decreases stack.len(),
{
    if stack.len() > 0 {
        let rest = stack.drop_last();
        assert forall|k: int| 0 <= k < rest.len() implies has_tree(
            nodes,
            lanes,
            (#[trigger] rest[k]).0 as int,
        ) by {
            assert(rest[k] == stack[k]);
        }
        lemma_stack_covers_in_range(nodes, lanes, rest);
        assert(stack[stack.len() - 1] == stack.last());
        lemma_covers_in_range(nodes, lanes, stack.last().0 as int);
        assert forall|p: int| #[trigger] stack_covers(nodes, stack).contains(p) implies 0 <= p
            < lanes.len() by {
            assert(stack_covers(nodes, rest).contains(p) || covers(
                nodes,
                stack.last().0 as int,
            ).contains(p));
        }
    }
}

proof fn lemma_reach_among(
    nodes: Seq<Node>,
    lanes: Seq<Lane>,
    query: Seq<i16>,
    kin: Set<int>,
    p: int,
    n: nat,
)
    ensures
        knn::distance(query, lanes[p].vector@) <= reach_among(nodes, lanes, query, kin, p, n) < FAR,
        forall|i: int|
            0 <= i < n && kin.contains(i) && #[trigger] covers(nodes, i).contains(p)
                ==> node_distance(nodes, query, i) <= reach_among(nodes, lanes, query, kin, p, n),
    decreases n,
{
    if n == 0 {
        knn::lemma_distance_bounds(query, lanes[p].vector@);
    } else {
        lemma_reach_among(nodes, lanes, query, kin, p, (n - 1) as nat);
        knn::lemma_box_distance_bounds(query, nodes[n - 1].min@, nodes[n - 1].max@);
    }
}

/// A reference is taken to be no nearer than it is.
pub proof fn lemma_reach_holds(
    nodes: Seq<Node>,
    lanes: Seq<Lane>,
    query: Seq<i16>,
    kin: Set<int>,
)
    ensures
        knn::reach_holds(query, lanes, reach(nodes, lanes, query, kin)),
{
    let far = reach(nodes, lanes, query, kin);
    assert forall|p: int| 0 <= p < lanes.len() implies knn::distance(query, lanes[p].vector@)
        <= #[trigger] far[p] < FAR by {
        lemma_reach_among(nodes, lanes, query, kin, p, nodes.len());
    }
}

/// The distance to a node's box bounds how near the references below it reach.
pub proof fn lemma_box_bound_holds(
    nodes: Seq<Node>,
    lanes: Seq<Lane>,
    query: Seq<i16>,
    kin: Set<int>,
    i: int,
)
    requires
        has_tree(nodes, lanes, i),
        kin.contains(i),
    ensures
        bound_holds(
            nodes,
            reach(nodes, lanes, query, kin),
            i,
            knn::box_distance(query, nodes[i].min@, nodes[i].max@),
        ),
{
    let far = reach(nodes, lanes, query, kin);
    lemma_covers_in_range(nodes, lanes, i);
    assert forall|p: int| #[trigger] covers(nodes, i).contains(p) implies far[p]
        >= knn::box_distance(query, nodes[i].min@, nodes[i].max@) by {
        lemma_reach_among(nodes, lanes, query, kin, p, nodes.len());
        assert(node_distance(nodes, query, i) <= far[p]);
    }
}

/// A reference whose stored vector lies in all boxes around it is taken to be no farther away than
/// that vector.
pub proof fn lemma_reach_bounded(
    nodes: Seq<Node>,
    lanes: Seq<Lane>,
    query: Seq<i16>,
    kin: Set<int>,
    p: int,
    vector: Seq<i16>,
    n: nat,
)
    requires
        0 <= p < lanes.len(),
        knn::distance(query, lanes[p].vector@) <= knn::packed_distance(query, vector),
        forall|i: int|
            kin.contains(i) && #[trigger] covers(nodes, i).contains(p) ==> knn::inside(
                vector,
                nodes[i].min@,
                nodes[i].max@,
            ),
    ensures
        reach_among(nodes, lanes, query, kin, p, n) <= knn::packed_distance(query, vector),
    decreases n,
{
    if n > 0 {
        lemma_reach_bounded(nodes, lanes, query, kin, p, vector, (n - 1) as nat);
        if kin.contains(n - 1) && covers(nodes, n - 1).contains(p) {
            knn::law_box_distance_is_a_lower_bound(
                query,
                nodes[n - 1].min@,
                nodes[n - 1].max@,
                vector,
            );
        }
    }
}

/// Node `c` is one of the two below node `v`.
pub open spec fn child_of(nodes: Seq<Node>, c: int, v: int) -> bool {
    !nodes[v].is_leaf() && (nodes[v].left == c || nodes[v].right == c)
}

/// Node `c` is below one of the visited nodes.
pub open spec fn has_parent(nodes: Seq<Node>, visited: Seq<int>, c: int) -> bool {
    exists|k: int| 0 <= k < visited.len() && child_of(nodes, c, #[trigger] visited[k])
}

/// Every visited node is one at which a search entered a tree, or is below a node that was visited
/// before.
pub open spec fn linked(nodes: Seq<Node>, entered: Seq<int>, visited: Seq<int>) -> bool {
    forall|k: int|
        0 <= k < visited.len() ==> entered.contains(#[trigger] visited[k]) || has_parent(
            nodes,
            visited.take(k),
            visited[k],
        )
}

/// The node is among those left to look at, with the distance of its box.
pub open spec fn waits(
    nodes: Seq<Node>,
    query: Seq<i16>,
    waiting: Seq<(usize, i64)>,
    c: int,
) -> bool {
    exists|k: int|
        0 <= k < waiting.len() && (#[trigger] waiting[k]).0 == c && waiting[k].1 == node_distance(
            nodes,
            query,
            c,
        )
}

/// Every node below a visited one was visited, waits, or has a box farther away than `limit`.
pub open spec fn closed_but(
    nodes: Seq<Node>,
    query: Seq<i16>,
    visited: Seq<int>,
    limit: int,
    waiting: Seq<(usize, i64)>,
) -> bool {
    forall|c: int| #[trigger]
        has_parent(nodes, visited, c) ==> visited.contains(c) || node_distance(nodes, query, c)
            > limit || waits(nodes, query, waiting, c)
}

/// Every node below a visited one was visited, or has a box farther away than `limit`.
pub open spec fn closed(nodes: Seq<Node>, query: Seq<i16>, visited: Seq<int>, limit: int) -> bool {
    forall|c: int| #[trigger]
        has_parent(nodes, visited, c) ==> visited.contains(c) || node_distance(nodes, query, c)
            > limit
}

/// No node was visited twice, none waits twice, and none that waits, or is below one that does, was
/// visited.
pub open spec fn unvisited(
    nodes: Seq<Node>,
    visited: Seq<int>,
    waiting: Seq<(usize, i64)>,
) -> bool {
    &&& visited.no_duplicates()
    &&& forall|k: int, v: int|
        0 <= k < waiting.len() && #[trigger] family(nodes, waiting[k].0 as int).contains(v)
            ==> !visited.contains(v)
    &&& forall|k: int, l: int|
        0 <= k < l < waiting.len() ==> family(nodes, (#[trigger] waiting[k]).0 as int).disjoint(
            family(nodes, (#[trigger] waiting[l]).0 as int),
        )
}

/// The place is in one of the leaves among the visited nodes.
pub open spec fn seen_in(nodes: Seq<Node>, visited: Seq<int>, place: int) -> bool {
    exists|k: int|
        0 <= k < visited.len() && nodes[visited[k]].is_leaf() && covers(
            nodes,
            #[trigger] visited[k],
        ).contains(place)
}

/// What a search counts.
#[derive(Clone, Copy, Debug, PartialEq, Eq, Structural)]
pub struct SearchStats {
    pub partitions_visited: u32,
    pub secondary_partitions: u32,
    pub nodes_visited: u32,
    pub leaves_scanned: u32,
    pub blocks_scanned: u32,
}

impl SearchStats {
    /// Nothing counted.
    pub fn zero() -> (r: Self)
        ensures
            r == (SearchStats {
                partitions_visited: 0,
                secondary_partitions: 0,
                nodes_visited: 0,
                leaves_scanned: 0,
                blocks_scanned: 0,
            }),
    {
        SearchStats {
            partitions_visited: 0,
            secondary_partitions: 0,
            nodes_visited: 0,
            leaves_scanned: 0,
            blocks_scanned: 0,
        }
    }
}

/// A search under way: the candidates so far, what was counted, and the subtrees set aside.
pub struct Search {
    pub dists: [i64; K],
    pub labels: [u8; K],
    pub indices: [u32; K],
    pub keys: [u32; K],
    pub stats: SearchStats,
    pub pending: PendingSubtrees,
    /// Where the index holds each candidate.
    pub places: Ghost<Seq<int>>,
    /// The references that are accounted for: looked at, or known to be too far.
    pub done: Ghost<Set<int>>,
    /// The nodes at which the search entered a tree.
    pub entered: Ghost<Seq<int>>,
    /// The largest distance among the candidates once each of these trees was done.
    pub limits: Ghost<Seq<int>>,
    /// The nodes that were visited.
    pub visited: Ghost<Seq<int>>,
}

impl Search {
    /// The candidates so far.
    pub open spec fn best(self) -> Neighbours {
        Neighbours {
            dists: self.dists@,
            labels: self.labels@,
            indices: self.indices@,
            keys: self.keys@,
            places: self.places@,
        }
    }

    /// How far the search has come.
    pub open spec fn trail(self) -> Trail {
        Trail {
            found: self.best(),
            entered: self.entered@,
            limits: self.limits@,
            visited: self.visited@,
            enabled: self.pending.enabled,
            label: self.pending.label,
            pending: self.pending@,
        }
    }

    /// The references below the subtrees that were set aside.
    pub open spec fn deferred(self, nodes: Seq<Node>) -> Set<int> {
        stack_covers(nodes, self.pending@)
    }

    /// What was counted is what was visited.
    pub open spec fn counts_hold(self, nodes: Seq<Node>) -> bool {
        &&& self.stats.nodes_visited == self.visited@.len() % 0x1_0000_0000
        &&& self.stats.leaves_scanned == leaf_count(nodes, self.visited@) % 0x1_0000_0000
        &&& self.stats.blocks_scanned == block_count(nodes, self.visited@) % 0x1_0000_0000
        &&& forall|k: int|
            0 <= k < self.visited@.len() ==> 0 <= (#[trigger] self.visited@[k]) < nodes.len()
    }

    /// Every candidate was found in a leaf that was visited.
    pub open spec fn found_where_visited(self, nodes: Seq<Node>) -> bool {
        forall|i: int|
            0 <= i < K && #[trigger] self.places@[i] != -1 ==> seen_in(
                nodes,
                self.visited@,
                self.places@[i],
            )
    }

    /// Every subtree that was set aside exists.
    pub open spec fn pending_fits(self, nodes: Seq<Node>, lanes: Seq<Lane>) -> bool {
        &&& self.pending.wf()
        &&& stack_fits(nodes, lanes, self.pending@)
    }

    /// The search is in order: the candidates are references in scope, and the counts hold.
    pub open spec fn in_order(
        self,
        nodes: Seq<Node>,
        lanes: Seq<Lane>,
        query: Seq<i16>,
        scope: Set<int>,
    ) -> bool {
        &&& self.best().sound(query, lanes, scope)
        &&& self.counts_hold(nodes)
        &&& self.found_where_visited(nodes)
        &&& linked(nodes, self.entered@, self.visited@)
        &&& self.pending_fits(nodes, lanes)
        &&& self.deferred(nodes).subset_of(scope)
    }

    /// The search is exact so far: the candidates are the nearest of the references that are
    /// accounted for; those set aside are others, in orderly trees, with no label but the one for
    /// which they were set aside, and their bounds hold.
    pub open spec fn exact_so_far(
        self,
        nodes: Seq<Node>,
        lanes: Seq<Lane>,
        query: Seq<i16>,
        kin: Set<int>,
    ) -> bool {
        let far = reach(nodes, lanes, query, kin);
        &&& self.best().nearest(query, lanes, far, self.done@)
        &&& self.done@.disjoint(self.deferred(nodes))
        &&& stack_apart(nodes, self.pending@)
        &&& forall|k: int|
            0 <= k < self.pending@.len() ==> {
                let i = (#[trigger] self.pending@[k]).0 as int;
                &&& bound_holds(nodes, far, i, self.pending@[k].1 as int)
                &&& orderly(nodes, lanes, i)
                &&& family(nodes, i).subset_of(kin)
            }
        &&& classes_hold(nodes, lanes, kin) ==> forall|p: int| #[trigger]
            self.deferred(nodes).contains(p) ==> self.pending.label == Some(lanes[p].label)
    }

    /// A search that has not begun.
    pub fn new(label_defer: bool) -> (r: Self)
        ensures
            r.trail() == Trail::begun(label_defer),
            r.best() == Neighbours::none(),
            r.stats.partitions_visited == 0,
            r.stats.secondary_partitions == 0,
            r.stats.nodes_visited == 0,
            r.stats.leaves_scanned == 0,
            r.stats.blocks_scanned == 0,
            r.pending.wf(),
            r.pending.enabled == label_defer,
            r.pending.label is None,
            r.pending@ == Seq::<(usize, i64)>::empty(),
            r.done@ == Set::<int>::empty(),
            r.entered@ == Seq::<int>::empty(),
            r.visited@ == Seq::<int>::empty(),
    {
        let r = Search {
            dists: [FAR; K],
            labels: [0u8; K],
            indices: [u32::MAX; K],
            keys: [u32::MAX; K],
            stats: SearchStats::zero(),
            pending: PendingSubtrees::new(label_defer),
            places: Ghost(Seq::new(K as nat, |i: int| -1int)),
            done: Ghost(Set::empty()),
            entered: Ghost(Seq::empty()),
            limits: Ghost(Seq::empty()),
            visited: Ghost(Seq::empty()),
        };
        assert(r.best() =~= Neighbours::none());
        assert(r.trail() =~= Trail::begun(label_defer));
        r
    }

    /// The largest distance among the candidates.
    pub fn limit(&self) -> (r: i64)
        ensures
            r == self.best().limit(),
    {
        self.dists[K - 1]
    }

    /// The number of fraudulent references among the candidates, kept to eight bits.
    pub fn frauds(&self) -> (r: u8)
        ensures
            r == self.best().frauds() % 256,
    {
        (search::sum_labels(&self.labels) % 256) as u8
    }
}

impl Search {
    /// Counts a visit of a node.
    fn count_node(&mut self, node: &Node, node_idx: usize, nodes: Ghost<Seq<Node>>)
        requires
            old(self).counts_hold(nodes@),
            old(self).found_where_visited(nodes@),
            node_idx < nodes@.len(),
            nodes@[node_idx as int] == *node,
            node.is_leaf() ==> 0 <= node.len,
        ensures
            final(self).counts_hold(nodes@),
            final(self).found_where_visited(nodes@),
            final(self).best() == old(self).best(),
            final(self).pending == old(self).pending,
            final(self).done == old(self).done,
            final(self).entered == old(self).entered,
            final(self).limits == old(self).limits,
            final(self).visited@ == old(self).visited@.push(node_idx as int),
            final(self).stats.partitions_visited == old(self).stats.partitions_visited,
            final(self).stats.secondary_partitions == old(self).stats.secondary_partitions,
    {
        self.stats.nodes_visited = self.stats.nodes_visited.wrapping_add(1);
        if node.left < 0 || node.right < 0 {
            let blocks: u32 = (node.len as u32 + 7) / 8;
            self.stats.leaves_scanned = self.stats.leaves_scanned.wrapping_add(1);
            self.stats.blocks_scanned = self.stats.blocks_scanned.wrapping_add(blocks);
        }
        self.visited = Ghost(self.visited@.push(node_idx as int));
        proof {
            let v = self.visited@;
            assert(v.drop_last() =~= old(self).visited@);
            assert(v.last() == node_idx);
            assert forall|i: int| 0 <= i < K && #[trigger] self.places@[i] != -1 implies seen_in(
                nodes@,
                v,
                self.places@[i],
            ) by {
                let old_v = old(self).visited@;
                assert(seen_in(nodes@, old_v, self.places@[i]));
                let k = choose|k: int|
                    0 <= k < old_v.len() && nodes@[old_v[k]].is_leaf() && covers(
                        nodes@,
                        #[trigger] old_v[k],
                    ).contains(self.places@[i]);
                assert(v[k] == old_v[k]);
            }
        }
    }

    /// Keeps a reference if it is near enough.
    fn offer(
        &mut self,
        query: &QueryVector,
        lane: &Lane,
        key: u32,
        place: Ghost<int>,
        lanes: Ghost<Seq<Lane>>,
        far: Ghost<Seq<int>>,
        scope: Ghost<Set<int>>,
        keyed: Ghost<Set<(u32, int)>>,
    )
        requires
            knn::reach_holds(query@, lanes@, far@),
            old(self).best().sound(query@, lanes@, scope@),
            0 <= place@ < lanes@.len(),
            lanes@[place@] == *lane,
            scope@.contains(place@),
        ensures
            final(self).best().sound(query@, lanes@, scope@),
            final(self).stats == old(self).stats,
            final(self).pending == old(self).pending,
            final(self).entered == old(self).entered,
            final(self).limits == old(self).limits,
            final(self).visited == old(self).visited,
            final(self).best() == old(self).best().with(
                knn::distance(query@, lane.vector@) as i64,
                lane.label,
                lane.ref_index,
                key,
                place@,
            ),
            final(self).done@ == old(self).done@.insert(place@),
            final(self).best().limit() <= old(self).best().limit(),
            forall|i: int|
                0 <= i < K ==> #[trigger] final(self).places@[i] == place@ || old(self).best().has(
                    final(self).places@[i],
                ),
            old(self).best().keyed_by(keyed@) && keyed@.contains((key, place@)) ==> final(self).best().keyed_by(keyed@),
            old(self).best().nearest(query@, lanes@, far@, old(self).done@) && !old(
                self,
            ).done@.contains(place@) ==> final(self).best().nearest(
                query@,
                lanes@,
                far@,
                final(self).done@,
            ),
    {
        let ghost n = self.best();
        proof {
            knn::lemma_distance_bounds(query@, lane.vector@);
        }
        match knn::bounded_distance(query, &lane.vector, self.dists[K - 1]) {
            Some(dist) => {
                proof {
                    knn::lemma_with_sound(n, dist, key, place@, query@, lanes@, scope@);
                    knn::lemma_with_places(n, dist, lane.label, lane.ref_index, key, place@);
                    if n.keyed_by(keyed@) && keyed@.contains((key, place@)) {
                        knn::lemma_with_keyed(
                            n,
                            dist,
                            lane.label,
                            lane.ref_index,
                            key,
                            place@,
                            keyed@,
                        );
                    }
                    if n.nearest(query@, lanes@, far@, self.done@) && !self.done@.contains(
                        place@,
                    ) {
                        knn::lemma_with_nearest(
                            n,
                            dist,
                            key,
                            place@,
                            query@,
                            lanes@,
                            far@,
                            self.done@,
                        );
                    }
                }
                search::insert_best(
                    dist,
                    lane.label,
                    lane.ref_index,
                    key,
                    &mut self.dists,
                    &mut self.labels,
                    &mut self.indices,
                    &mut self.keys,
                );
                let ghost m = n.with(dist, lane.label, lane.ref_index, key, place@);
                self.places = Ghost(m.places);
                assert(self.best() =~= m);
            },
            None => {
                proof {
                    assert(forall|i: int| 0 <= i < K ==> n.has(#[trigger] self.places@[i]));
                    if n.nearest(query@, lanes@, far@, self.done@) {
                        let one = Set::<int>::empty().insert(place@);
                        assert(far@[place@] >= n.limit());
                        knn::lemma_cover_far(n, query@, lanes@, far@, self.done@, one);
                        assert(self.done@.union(one) =~= self.done@.insert(place@));
                    }
                }
            },
        }
        self.done = Ghost(self.done@.insert(place@));
    }
}

impl Forest {
    /// The nodes can be numbered.
    pub open spec fn wf(self) -> bool {
        self.nodes@.len() <= 0x7fff_ffff
    }

    /// Looks at the references of a leaf.
    fn scan_leaf(
        &self,
        node_idx: usize,
        query: &QueryVector,
        partition_key: u32,
        st: &mut Search,
        kin: Ghost<Set<int>>,
        scope: Ghost<Set<int>>,
        keyed: Ghost<Set<(u32, int)>>,
    )
        requires
            self.wf(),
            has_tree(self.nodes@, self.lanes@, node_idx as int),
            self.nodes@[node_idx as int].is_leaf(),
            old(st).in_order(self.nodes@, self.lanes@, query@, scope@),
            covers(self.nodes@, node_idx as int).subset_of(scope@),
            old(st).visited@.len() > 0,
            old(st).visited@.last() == node_idx,
        ensures
            final(st).in_order(self.nodes@, self.lanes@, query@, scope@),
            final(st).stats == old(st).stats,
            final(st).pending == old(st).pending,
            final(st).entered == old(st).entered,
            final(st).limits == old(st).limits,
            final(st).visited == old(st).visited,
            final(st).best() == trail::scanned(
                self.lanes@,
                query@,
                partition_key,
                old(st).best(),
                self.nodes@[node_idx as int].start * 8,
                self.nodes@[node_idx as int].len as int,
            ),
            final(st).done@ == old(st).done@.union(covers(self.nodes@, node_idx as int)),
            final(st).best().limit() <= old(st).best().limit(),
            old(st).best().keyed_by(keyed@) && holds_all(
                keyed@,
                partition_key,
                covers(self.nodes@, node_idx as int),
            ) ==> final(st).best().keyed_by(keyed@),
            ({
                let far = reach(self.nodes@, self.lanes@, query@, kin@);
                old(st).best().nearest(query@, self.lanes@, far, old(st).done@) && old(
                    st,
                ).done@.disjoint(covers(self.nodes@, node_idx as int))
                    ==> final(st).best().nearest(query@, self.lanes@, far, final(st).done@)
            }),
    {
        let node = &self.nodes[node_idx];
        let ghost nodes = self.nodes@;
        let ghost lanes = self.lanes@;
        let ghost all = covers(nodes, node_idx as int);
        let ghost far = reach(nodes, lanes, query@, kin@);
        proof {
            lemma_tree(nodes, lanes, node_idx as int);
            lemma_reach_holds(nodes, lanes, query@, kin@);
        }
        if node.len == 0 {
            assert(all =~= Set::<int>::empty());
            assert(st.done@ =~= st.done@.union(all));
            return;
        }
        let total: usize = self.lanes.len();
        let first: usize = node.start as usize * LANES;
        let len: usize = node.len as usize;
        let mut i: usize = 0;
        let ghost begun = st.best().nearest(query@, lanes, far, st.done@) && st.done@.disjoint(all);
        let ghost part = |n: int| Set::new(|p: int| first <= p < first + n);
        proof {
            assert(st.done@ =~= st.done@.union(part(0)));
        }
        while i < len
            invariant
                i <= len,
                first + len <= total,
                total == lanes.len(),
                nodes == self.nodes@,
                lanes == self.lanes@,
                knn::reach_holds(query@, lanes, far),
                all == Set::new(|p: int| first <= p < first + len),
                all.subset_of(scope@),
                part == (|n: int| Set::new(|p: int| first <= p < first + n)),
                node_idx < nodes.len(),
                all == covers(nodes, node_idx as int),
                nodes[node_idx as int].is_leaf(),
                old(st).visited@.len() > 0,
                old(st).visited@.last() == node_idx,
                st.in_order(nodes, lanes, query@, scope@),
                st.stats == old(st).stats,
                st.pending == old(st).pending,
                st.entered == old(st).entered,
                st.limits == old(st).limits,
                st.visited == old(st).visited,
                st.best() == trail::scanned(
                    lanes,
                    query@,
                    partition_key,
                    old(st).best(),
                    first as int,
                    i as int,
                ),
                st.done@ == old(st).done@.union(part(i as int)),
                st.best().limit() <= old(st).best().limit(),
                old(st).best().keyed_by(keyed@) && holds_all(keyed@, partition_key, all)
                    ==> st.best().keyed_by(keyed@),
                begun ==> st.best().nearest(query@, lanes, far, st.done@) && old(st).done@.disjoint(all),
            decreases len - i,
        {
            let ghost place: int = first + i;
            proof {
                assert(all.contains(place));
                assert(st.done@.contains(place) ==> old(st).done@.contains(place));
            }
            let ghost before = *st;
            st.offer(
                query,
                &self.lanes[first + i],
                partition_key,
                Ghost(place),
                Ghost(lanes),
                Ghost(far),
                scope,
                keyed,
            );
            proof {
                assert(st.done@ =~= old(st).done@.union(part(i + 1)));
                let v = st.visited@;
                assert forall|c: int| 0 <= c < K && #[trigger] st.places@[c] != -1 implies seen_in(
                    nodes,
                    v,
                    st.places@[c],
                ) by {
                    if st.places@[c] == place {
                        assert(v[v.len() - 1] == node_idx);
                        assert(covers(nodes, v[v.len() - 1]).contains(place));
                    } else {
                        let j = choose|j: int|
                            0 <= j < K && #[trigger] before.places@[j] == st.places@[c];
                        assert(seen_in(nodes, before.visited@, before.places@[j]));
                    }
                }
            }
            i = i + 1;
        }
        proof {
            assert(part(len as int) =~= all);
        }
    }
}

/// A search can begin in the tree at `root` and be exact: it has been so far, the tree is orderly, and
/// what is below `root` is new to it and reaches no nearer than the bound.
pub open spec fn search_begins(
    st: Search,
    nodes: Seq<Node>,
    lanes: Seq<Lane>,
    query: Seq<i16>,
    kin: Set<int>,
    root: usize,
    root_bound: i64,
) -> bool {
    &&& orderly(nodes, lanes, root as int)
    &&& family(nodes, root as int).subset_of(kin)
    &&& st.exact_so_far(nodes, lanes, query, kin)
    &&& bound_holds(nodes, reach(nodes, lanes, query, kin), root as int, root_bound as int)
    &&& st.done@.disjoint(covers(nodes, root as int))
    &&& st.deferred(nodes).disjoint(covers(nodes, root as int))
}

/// Where a search could begin in the tree at `root`, it is still exact after it, and all below
/// `root` is accounted for or set aside.
pub open spec fn searched(
    before: Search,
    after: Search,
    nodes: Seq<Node>,
    lanes: Seq<Lane>,
    query: Seq<i16>,
    kin: Set<int>,
    root: usize,
    root_bound: i64,
) -> bool {
    search_begins(before, nodes, lanes, query, kin, root, root_bound) ==> {
        &&& after.exact_so_far(nodes, lanes, query, kin)
        &&& after.done@.union(after.deferred(nodes)) == before.done@.union(
            before.deferred(nodes),
        ).union(covers(nodes, root as int))
    }
}

/// What was visited is what a search in the tree at `root` visits that sets nothing aside: the root
/// if its bound is not over the limit, nodes of the tree alone, none of them twice where the tree is
/// apart and was not visited before, and all but those whose boxes are too far away where the tree
/// does not have too many levels.
pub open spec fn walked(
    before: Search,
    after: Search,
    nodes: Seq<Node>,
    lanes: Seq<Lane>,
    query: Seq<i16>,
    root: usize,
    root_bound: i64,
) -> bool {
    let below = family(nodes, root as int);
    &&& forall|v: int| #[trigger]
        after.visited@.contains(v) ==> before.visited@.contains(v) || below.contains(v)
    &&& forall|v: int| #[trigger] before.visited@.contains(v) ==> after.visited@.contains(v)
    &&& root_bound <= before.best().limit() ==> after.visited@.contains(root as int)
    &&& !before.pending.enabled && apart(nodes, root as int) && before.visited@.no_duplicates() && (
    forall|v: int| #[trigger] below.contains(v) ==> !before.visited@.contains(v))
        ==> after.visited@.no_duplicates()
    &&& !before.pending.enabled && shallow(nodes, lanes, root as int) && closed(
        nodes,
        query,
        before.visited@,
        before.best().limit(),
    ) ==> closed(nodes, query, after.visited@, after.best().limit())
}

/// A node on the stack, at a depth that leaves enough levels: its bound holds and its tree is orderly.
spec fn entry_holds(
    nodes: Seq<Node>,
    lanes: Seq<Lane>,
    query: Seq<i16>,
    kin: Set<int>,
    entry: (usize, i64),
    depth: int,
) -> bool {
    &&& bound_holds(nodes, reach(nodes, lanes, query, kin), entry.0 as int, entry.1 as int)
    &&& has_room(nodes, lanes, entry, depth)
    &&& apart(nodes, entry.0 as int)
    &&& family(nodes, entry.0 as int).subset_of(kin)
}

/// A search in a tree with nothing but the subtrees on the stack left to look at: it is exact so
/// far, and what is accounted for, set aside or left makes up `base`.
spec fn rest_holds(
    st: Search,
    nodes: Seq<Node>,
    lanes: Seq<Lane>,
    query: Seq<i16>,
    kin: Set<int>,
    stack: Seq<(usize, i64)>,
    base: Set<int>,
) -> bool {
    let rest = stack_covers(nodes, stack);
    &&& st.exact_so_far(nodes, lanes, query, kin)
    &&& stack_apart(nodes, stack)
    &&& st.done@.disjoint(rest)
    &&& st.deferred(nodes).disjoint(rest)
    &&& st.done@.union(st.deferred(nodes)).union(rest) == base
    &&& forall|k: int|
        0 <= k < stack.len() ==> entry_holds(nodes, lanes, query, kin, #[trigger] stack[k], k)
}

/// The same with the subtree at `current` left to look at, too.
spec fn frontier_holds(
    st: Search,
    nodes: Seq<Node>,
    lanes: Seq<Lane>,
    query: Seq<i16>,
    kin: Set<int>,
    stack: Seq<(usize, i64)>,
    current: usize,
    bound: i64,
    base: Set<int>,
) -> bool {
    rest_holds(st, nodes, lanes, query, kin, stack.push((current, bound)), base)
}

proof fn lemma_stack_push(nodes: Seq<Node>, stack: Seq<(usize, i64)>, entry: (usize, i64))
    ensures
        stack_covers(nodes, stack.push(entry)) == stack_covers(nodes, stack).union(
            covers(nodes, entry.0 as int),
        ),
        stack_apart(nodes, stack.push(entry)) == (stack_apart(nodes, stack) && stack_covers(
            nodes,
            stack,
        ).disjoint(covers(nodes, entry.0 as int))),
        stack_weight(nodes, stack.push(entry)) == stack_weight(nodes, stack) + weight(
            nodes,
            entry.0 as int,
        ),
{
    assert(stack.push(entry).drop_last() =~= stack);
}

proof fn lemma_stack_contains(nodes: Seq<Node>, stack: Seq<(usize, i64)>, k: int)
    requires
        0 <= k < stack.len(),
    ensures
        covers(nodes, stack[k].0 as int).subset_of(stack_covers(nodes, stack)),
    decreases stack.len(),
{
    if k < stack.len() - 1 {
        lemma_stack_contains(nodes, stack.drop_last(), k);
    }
}

/// The subtree at `current` has been accounted for.
proof fn lemma_accounted(
    before: Search,
    after: Search,
    nodes: Seq<Node>,
    lanes: Seq<Lane>,
    query: Seq<i16>,
    kin: Set<int>,
    stack: Seq<(usize, i64)>,
    current: usize,
    bound: i64,
    base: Set<int>,
)
    requires
        frontier_holds(before, nodes, lanes, query, kin, stack, current, bound, base),
        after.best().nearest(query, lanes, reach(nodes, lanes, query, kin), after.done@),
        after.done@ == before.done@.union(covers(nodes, current as int)),
        after.pending == before.pending,
    ensures
        rest_holds(after, nodes, lanes, query, kin, stack, base),
{
    let full = stack.push((current, bound));
    let own = covers(nodes, current as int);
    lemma_stack_push(nodes, stack, (current, bound));
    lemma_stack_contains(nodes, full, stack.len() as int);
    assert(full[stack.len() as int] == (current, bound));
    let rest = stack_covers(nodes, stack);
    assert(after.done@.disjoint(after.deferred(nodes))) by {
        assert forall|p: int| after.done@.contains(p) implies !after.deferred(nodes).contains(p) by {
            if own.contains(p) {
                assert(stack_covers(nodes, full).contains(p));
            }
        }
    }
    assert(after.done@.disjoint(rest)) by {
        assert forall|p: int| after.done@.contains(p) implies !rest.contains(p) by {
            if rest.contains(p) {
                assert(stack_covers(nodes, full).contains(p));
            }
        }
    }
    assert(after.done@.union(after.deferred(nodes)).union(rest) =~= base);
    assert forall|k: int| 0 <= k < stack.len() implies entry_holds(
        nodes,
        lanes,
        query,
        kin,
        #[trigger] stack[k],
        k,
    ) by {
        assert(full[k] == stack[k]);
    }
}

/// The search is as far as before where the same is accounted for and set aside.
proof fn lemma_same_frontier(
    before: Search,
    after: Search,
    nodes: Seq<Node>,
    lanes: Seq<Lane>,
    query: Seq<i16>,
    kin: Set<int>,
    stack: Seq<(usize, i64)>,
    base: Set<int>,
)
    requires
        rest_holds(before, nodes, lanes, query, kin, stack, base),
        after.best() == before.best(),
        after.done == before.done,
        after.pending@ == before.pending@,
        after.pending.label == before.pending.label,
    ensures
        rest_holds(after, nodes, lanes, query, kin, stack, base),
{
    assert(after.deferred(nodes) == before.deferred(nodes));
}

/// A subtree that is too far away does not go onto the stack.
proof fn lemma_drop_far(
    st: Search,
    nodes: Seq<Node>,
    lanes: Seq<Lane>,
    query: Seq<i16>,
    kin: Set<int>,
    stack: Seq<(usize, i64)>,
    far: (usize, i64),
    near: (usize, i64),
    base: Set<int>,
)
    requires
        has_tree(nodes, lanes, far.0 as int),
        rest_holds(st, nodes, lanes, query, kin, stack.push(far).push(near), base),
        far.1 > st.best().limit(),
    ensures
        forall|after: Search|
            after.best() == st.best() && after.pending == st.pending && after.done@
                == st.done@.union(covers(nodes, far.0 as int)) ==> #[trigger] frontier_holds(
                after,
                nodes,
                lanes,
                query,
                kin,
                stack,
                near.0,
                near.1,
                base,
            ),
{
    let two = stack.push(far).push(near);
    let swapped = stack.push(near).push(far);
    lemma_stack_push(nodes, stack, far);
    lemma_stack_push(nodes, stack.push(far), near);
    lemma_stack_push(nodes, stack, near);
    lemma_stack_push(nodes, stack.push(near), far);
    assert(two[stack.len() as int] == far);
    assert(two[(stack.len() + 1) as int] == near);
    assert(stack_covers(nodes, two) =~= stack_covers(nodes, swapped));
    assert(stack_apart(nodes, swapped)) by {
        let rest = stack_covers(nodes, stack);
        let cf = covers(nodes, far.0 as int);
        let cn = covers(nodes, near.0 as int);
        assert(rest.union(cf).disjoint(cn));
        assert forall|p: int| rest.contains(p) implies !cn.contains(p) by {
            assert(rest.union(cf).contains(p));
        }
        assert(rest.disjoint(cn));
        assert forall|p: int| rest.union(cn).contains(p) implies !cf.contains(p) by {
            if cf.contains(p) {
                assert(rest.union(cf).contains(p));
            }
        }
        assert(rest.union(cn).disjoint(cf));
    }
    lemma_too_far(st, nodes, lanes, query, kin, far.0 as int, far.1);
    let near_levels = (TREE_STACK_CAPACITY - stack.len() - 1) as nat;
    lemma_more_levels(nodes, lanes, near.0 as int, near_levels, near_levels + 1);
    assert forall|after: Search|
        after.best() == st.best() && after.pending == st.pending && after.done@ == st.done@.union(
            covers(nodes, far.0 as int),
        ) implies #[trigger] frontier_holds(
        after,
        nodes,
        lanes,
        query,
        kin,
        stack,
        near.0,
        near.1,
        base,
    ) by {
        let one = stack.push(near);
        let rest = stack_covers(nodes, one);
        let own = covers(nodes, far.0 as int);
        assert(after.done@.disjoint(after.deferred(nodes))) by {
            assert forall|p: int| after.done@.contains(p) implies !after.deferred(nodes).contains(
                p,
            ) by {
                if own.contains(p) {
                    assert(stack_covers(nodes, two).contains(p));
                }
            }
        }
        assert(after.done@.disjoint(rest)) by {
            assert forall|p: int| after.done@.contains(p) implies !rest.contains(p) by {
                if rest.contains(p) {
                    assert(stack_covers(nodes, two).contains(p));
                }
            }
        }
        assert(after.deferred(nodes).disjoint(rest)) by {
            assert forall|p: int| after.deferred(nodes).contains(p) implies !rest.contains(p) by {
                if rest.contains(p) {
                    assert(stack_covers(nodes, two).contains(p));
                }
            }
        }
        assert(after.done@.union(after.deferred(nodes)).union(rest) =~= base);
        assert forall|k: int| 0 <= k < one.len() implies entry_holds(
            nodes,
            lanes,
            query,
            kin,
            #[trigger] one[k],
            k,
        ) by {
            if k < stack.len() {
                assert(two[k] == one[k]);
            }
        }
    }
}

/// A subtree whose bound is over the largest distance among the candidates is accounted for.
pub proof fn lemma_too_far(
    st: Search,
    nodes: Seq<Node>,
    lanes: Seq<Lane>,
    query: Seq<i16>,
    kin: Set<int>,
    i: int,
    bound: i64,
)
    requires
        has_tree(nodes, lanes, i),
        st.best().nearest(query, lanes, reach(nodes, lanes, query, kin), st.done@),
        bound_holds(nodes, reach(nodes, lanes, query, kin), i, bound as int),
        bound >= st.best().limit(),
    ensures
        st.best().nearest(
            query,
            lanes,
            reach(nodes, lanes, query, kin),
            st.done@.union(covers(nodes, i)),
        ),
{
    let far = reach(nodes, lanes, query, kin);
    lemma_covers_in_range(nodes, lanes, i);
    assert forall|p: int| #[trigger] covers(nodes, i).contains(p) implies 0 <= p < lanes.len()
        && far[p] >= st.best().limit() by {}
    knn::lemma_cover_far(st.best(), query, lanes, far, st.done@, covers(nodes, i));
}

/// A node with two subtrees is replaced by them.
proof fn lemma_descend(
    st: Search,
    nodes: Seq<Node>,
    lanes: Seq<Lane>,
    query: Seq<i16>,
    kin: Set<int>,
    stack: Seq<(usize, i64)>,
    current: usize,
    bound: i64,
    far: (usize, i64),
    near: (usize, i64),
    base: Set<int>,
)
    requires
        has_tree(nodes, lanes, current as int),
        !nodes[current as int].is_leaf(),
        ({
            let l = nodes[current as int].left;
            let r = nodes[current as int].right;
            (far.0 == l && near.0 == r) || (far.0 == r && near.0 == l)
        }),
        far.1 == knn::box_distance(query, nodes[far.0 as int].min@, nodes[far.0 as int].max@),
        near.1 == knn::box_distance(query, nodes[near.0 as int].min@, nodes[near.0 as int].max@),
        frontier_holds(st, nodes, lanes, query, kin, stack, current, bound, base),
    ensures
        rest_holds(st, nodes, lanes, query, kin, stack.push(far).push(near), base),
        stack.len() < TREE_STACK_CAPACITY,
{
    let node = nodes[current as int];
    lemma_tree(nodes, lanes, current as int);
    let full = stack.push((current, bound));
    assert(full[stack.len() as int] == (current, bound));
    assert(entry_holds(nodes, lanes, query, kin, full[stack.len() as int], stack.len() as int));
    lemma_apart_below(nodes, lanes, current as int);
    lemma_stack_push(nodes, stack, (current, bound));
    let one = stack.push(far);
    let two = one.push(near);
    lemma_stack_push(nodes, stack, far);
    lemma_stack_push(nodes, one, near);
    let own = covers(nodes, current as int);
    let cf = covers(nodes, far.0 as int);
    let cn = covers(nodes, near.0 as int);
    assert(own =~= cf.union(cn));
    assert(cf.disjoint(cn));
    let rest = stack_covers(nodes, stack);
    assert(rest.disjoint(own));
    assert(stack_apart(nodes, one)) by {
        assert forall|p: int| rest.contains(p) implies !cf.contains(p) by {
            if cf.contains(p) {
                assert(own.contains(p));
            }
        }
        assert(rest.disjoint(cf));
    }
    assert(stack_apart(nodes, two)) by {
        assert forall|p: int| stack_covers(nodes, one).contains(p) implies !cn.contains(p) by {
            if cn.contains(p) {
                assert(own.contains(p));
            }
        }
        assert(stack_covers(nodes, one).disjoint(cn));
    }
    assert(stack_covers(nodes, two) =~= stack_covers(nodes, full));
    lemma_tree(nodes, lanes, far.0 as int);
    lemma_tree(nodes, lanes, near.0 as int);
    assert(family(nodes, current as int).contains(far.0 as int));
    assert(family(nodes, current as int).contains(near.0 as int));
    lemma_box_bound_holds(nodes, lanes, query, kin, far.0 as int);
    lemma_box_bound_holds(nodes, lanes, query, kin, near.0 as int);
    let left_over = (TREE_STACK_CAPACITY - stack.len()) as nat;
    let fewer = (left_over - 1) as nat;
    assert(stands(nodes, lanes, far.0 as int, fewer));
    assert(stands(nodes, lanes, near.0 as int, fewer));
    lemma_more_levels(nodes, lanes, far.0 as int, fewer, left_over);
    assert forall|k: int| 0 <= k < two.len() implies entry_holds(
        nodes,
        lanes,
        query,
        kin,
        #[trigger] two[k],
        k,
    ) by {
        if k < stack.len() {
            assert(full[k] == stack[k]);
            assert(two[k] == stack[k]);
        } else if k == stack.len() {
            assert(two[k] == far);
        } else {
            assert(two[k] == near);
        }
    }
}

/// The subtree at `current` has been set aside.
proof fn lemma_set_aside(
    before: Search,
    after: Search,
    nodes: Seq<Node>,
    lanes: Seq<Lane>,
    query: Seq<i16>,
    kin: Set<int>,
    stack: Seq<(usize, i64)>,
    current: usize,
    bound: i64,
    base: Set<int>,
)
    requires
        has_tree(nodes, lanes, current as int),
        before.pending.wf(),
        frontier_holds(before, nodes, lanes, query, kin, stack, current, bound, base),
        after.best() == before.best(),
        after.done == before.done,
        after.pending@ == before.pending@.push((current, bound)),
        before.pending.label is None || before.pending.label == after.pending.label,
        after.pending.label == search::consensus(before.dists@, before.labels@),
        after.pending.label is Some,
        after.pending.label.unwrap() <= 1,
        search::only_class(nodes[current as int].class_bits, after.pending.label.unwrap()),
    ensures
        rest_holds(after, nodes, lanes, query, kin, stack, base),
{
    let full = stack.push((current, bound));
    let own = covers(nodes, current as int);
    let rest = stack_covers(nodes, stack);
    lemma_tree(nodes, lanes, current as int);
    lemma_stack_push(nodes, stack, (current, bound));
    lemma_stack_push(nodes, before.pending@, (current, bound));
    let deferred = before.deferred(nodes);
    assert(after.deferred(nodes) =~= deferred.union(own));
    assert(full[stack.len() as int] == (current, bound));
    assert(entry_holds(nodes, lanes, query, kin, full[stack.len() as int], stack.len() as int));
    let left_over = (TREE_STACK_CAPACITY - stack.len()) as nat;
    lemma_more_levels(nodes, lanes, current as int, left_over, TREE_STACK_CAPACITY as nat);
    assert forall|p: int| own.contains(p) implies stack_covers(nodes, full).contains(p) by {}
    assert(deferred.disjoint(own)) by {
        assert forall|p: int| deferred.contains(p) implies !own.contains(p) by {
            if own.contains(p) {
                assert(stack_covers(nodes, full).contains(p));
            }
        }
    }
    assert(after.done@.disjoint(after.deferred(nodes))) by {
        assert forall|p: int| after.done@.contains(p) implies !after.deferred(nodes).contains(p) by {
            if own.contains(p) {
                assert(stack_covers(nodes, full).contains(p));
            }
        }
    }
    assert(after.done@.disjoint(rest)) by {
        assert forall|p: int| after.done@.contains(p) implies !rest.contains(p) by {
            if rest.contains(p) {
                assert(stack_covers(nodes, full).contains(p));
            }
        }
    }
    assert(after.deferred(nodes).disjoint(rest)) by {
        assert forall|p: int| after.deferred(nodes).contains(p) implies !rest.contains(p) by {
            if rest.contains(p) {
                assert(stack_covers(nodes, full).contains(p));
            }
        }
    }
    assert(after.done@.union(after.deferred(nodes)).union(rest) =~= base);
    let far = reach(nodes, lanes, query, kin);
    assert forall|k: int| 0 <= k < after.pending@.len() implies {
        let i = (#[trigger] after.pending@[k]).0 as int;
        &&& bound_holds(nodes, far, i, after.pending@[k].1 as int)
        &&& orderly(nodes, lanes, i)
        &&& family(nodes, i).subset_of(kin)
    } by {
        if k < before.pending@.len() {
            assert(after.pending@[k] == before.pending@[k]);
        }
    }
    if classes_hold(nodes, lanes, kin) {
        let label = after.pending.label.unwrap();
        let bits = nodes[current as int].class_bits;
        assert forall|p: int| #[trigger]
            after.deferred(nodes).contains(p) implies after.pending.label == Some(
            lanes[p].label,
        ) by {
            if own.contains(p) {
                let other = lanes[p].label;
                assert(kin.contains(current as int));
                assert(covers(nodes, current as int).contains(p));
                assert(other <= 1);
                assert(bits & (if other == 0 {
                    1u8
                } else {
                    2u8
                }) != 0);
            } else {
                assert(deferred.contains(p));
                if before.pending.label is None {
                    assert(before.pending@.len() == 0);
                }
            }
        }
    }
    assert forall|k: int| 0 <= k < stack.len() implies entry_holds(
        nodes,
        lanes,
        query,
        kin,
        #[trigger] stack[k],
        k,
    ) by {
        assert(full[k] == stack[k]);
    }
}

/// What a walk through trees has visited, with the nodes that wait: each of these is one at which it
/// entered a tree or is below a visited one.
spec fn walk_holds(
    nodes: Seq<Node>,
    entered: Seq<int>,
    visited: Seq<int>,
    waiting: Seq<(usize, i64)>,
) -> bool {
    &&& linked(nodes, entered, visited)
    &&& forall|k: int|
        0 <= k < waiting.len() ==> entered.contains((#[trigger] waiting[k]).0 as int) || has_parent(
            nodes,
            visited,
            waiting[k].0 as int,
        )
}

/// Every node of a sequence is one of a longer one.
proof fn lemma_push_contains(s: Seq<int>, x: int)
    ensures
        forall|v: int| #[trigger] s.push(x).contains(v) <==> s.contains(v) || v == x,
{
    assert forall|v: int| #[trigger] s.push(x).contains(v) <==> s.contains(v) || v == x by {
        if s.contains(v) {
            let k = choose|k: int| 0 <= k < s.len() && s[k] == v;
            assert(s.push(x)[k] == v);
        }
        if v == x {
            assert(s.push(x)[s.len() as int] == v);
        }
    }
}

/// A visit adds the visited node's children to those that have a parent.
proof fn lemma_push_parent(nodes: Seq<Node>, visited: Seq<int>, v: int)
    ensures
        forall|c: int| #[trigger]
            has_parent(nodes, visited.push(v), c) <==> has_parent(nodes, visited, c) || child_of(
                nodes,
                c,
                v,
            ),
{
    let more = visited.push(v);
    assert forall|c: int| #[trigger]
        has_parent(nodes, more, c) <==> has_parent(nodes, visited, c) || child_of(nodes, c, v) by {
        if has_parent(nodes, visited, c) {
            let k = choose|k: int|
                0 <= k < visited.len() && child_of(nodes, c, #[trigger] visited[k]);
            assert(more[k] == visited[k]);
        }
        if child_of(nodes, c, v) {
            assert(more[visited.len() as int] == v);
        }
        if has_parent(nodes, more, c) {
            let k = choose|k: int| 0 <= k < more.len() && child_of(nodes, c, #[trigger] more[k]);
            if k < visited.len() {
                assert(visited[k] == more[k]);
            }
        }
    }
}

/// The node that waits last is visited.
proof fn lemma_walk_visit(
    nodes: Seq<Node>,
    entered: Seq<int>,
    visited: Seq<int>,
    waiting: Seq<(usize, i64)>,
    next: (usize, i64),
)
    requires
        walk_holds(nodes, entered, visited, waiting.push(next)),
    ensures
        walk_holds(nodes, entered, visited.push(next.0 as int), waiting),
{
    let full = waiting.push(next);
    let v = next.0 as int;
    let more = visited.push(v);
    lemma_push_parent(nodes, visited, v);
    assert(full[waiting.len() as int] == next);
    assert forall|k: int| 0 <= k < more.len() implies entered.contains(#[trigger] more[k])
        || has_parent(nodes, more.take(k), more[k]) by {
        assert(more.take(k) =~= visited.take(k));
        if k < visited.len() {
            assert(visited[k] == more[k]);
        } else {
            assert(visited.take(k) =~= visited);
        }
    }
    assert forall|k: int| 0 <= k < waiting.len() implies entered.contains(
        (#[trigger] waiting[k]).0 as int,
    ) || has_parent(nodes, more, waiting[k].0 as int) by {
        assert(full[k] == waiting[k]);
    }
}

/// Fewer nodes wait.
proof fn lemma_walk_drop(
    nodes: Seq<Node>,
    entered: Seq<int>,
    visited: Seq<int>,
    waiting: Seq<(usize, i64)>,
    next: (usize, i64),
)
    requires
        walk_holds(nodes, entered, visited, waiting.push(next)),
    ensures
        walk_holds(nodes, entered, visited, waiting),
{
    let full = waiting.push(next);
    assert forall|k: int| 0 <= k < waiting.len() implies entered.contains(
        (#[trigger] waiting[k]).0 as int,
    ) || has_parent(nodes, visited, waiting[k].0 as int) by {
        assert(full[k] == waiting[k]);
    }
}

/// A node below a visited one waits too.
proof fn lemma_walk_wait(
    nodes: Seq<Node>,
    entered: Seq<int>,
    visited: Seq<int>,
    waiting: Seq<(usize, i64)>,
    next: (usize, i64),
)
    requires
        walk_holds(nodes, entered, visited, waiting),
        has_parent(nodes, visited, next.0 as int),
    ensures
        walk_holds(nodes, entered, visited, waiting.push(next)),
{
    let full = waiting.push(next);
    assert forall|k: int| 0 <= k < full.len() implies entered.contains(
        (#[trigger] full[k]).0 as int,
    ) || has_parent(nodes, visited, full[k].0 as int) by {
        if k < waiting.len() {
            assert(full[k] == waiting[k]);
        }
    }
}

/// One that waits among fewer waits among more.
proof fn lemma_waits_push(
    nodes: Seq<Node>,
    query: Seq<i16>,
    waiting: Seq<(usize, i64)>,
    next: (usize, i64),
    c: int,
)
    ensures
        waits(nodes, query, waiting, c) ==> waits(nodes, query, waiting.push(next), c),
        next.0 == c && next.1 == node_distance(nodes, query, c) ==> waits(
            nodes,
            query,
            waiting.push(next),
            c,
        ),
        waits(nodes, query, waiting.push(next), c) ==> waits(nodes, query, waiting, c) || (next.0
            == c && next.1 == node_distance(nodes, query, c)),
{
    let full = waiting.push(next);
    assert(full[waiting.len() as int] == next);
    if waits(nodes, query, waiting, c) {
        let k = choose|k: int|
            0 <= k < waiting.len() && (#[trigger] waiting[k]).0 == c && waiting[k].1
                == node_distance(nodes, query, c);
        assert(full[k] == waiting[k]);
    }
    if waits(nodes, query, full, c) {
        let k = choose|k: int|
            0 <= k < full.len() && (#[trigger] full[k]).0 == c && full[k].1 == node_distance(
                nodes,
                query,
                c,
            );
        if k < waiting.len() {
            assert(full[k] == waiting[k]);
        }
    }
}

/// The node that waits last is visited, or dropped because its box is too far away; a lower limit
/// does no harm.
proof fn lemma_closed_next(
    nodes: Seq<Node>,
    query: Seq<i16>,
    visited: Seq<int>,
    limit: int,
    waiting: Seq<(usize, i64)>,
    next: (usize, i64),
    lower: int,
)
    requires
        closed_but(nodes, query, visited, limit, waiting.push(next)),
        lower <= limit,
    ensures
        next.1 > limit ==> closed_but(nodes, query, visited, lower, waiting),
        nodes[next.0 as int].is_leaf() ==> closed_but(
            nodes,
            query,
            visited.push(next.0 as int),
            lower,
            waiting,
        ),
{
    lemma_push_parent(nodes, visited, next.0 as int);
    lemma_push_contains(visited, next.0 as int);
    assert forall|c: int| #[trigger] has_parent(nodes, visited, c) && next.1
        > limit implies visited.contains(c) || node_distance(nodes, query, c) > lower || waits(
        nodes,
        query,
        waiting,
        c,
    ) by {
        lemma_waits_push(nodes, query, waiting, next, c);
    }
    let more = visited.push(next.0 as int);
    assert forall|c: int| #[trigger] has_parent(nodes, more, c) && nodes[next.0 as int].is_leaf()
        implies more.contains(c) || node_distance(nodes, query, c) > lower || waits(
        nodes,
        query,
        waiting,
        c,
    ) by {
        assert(has_parent(nodes, visited, c));
        lemma_waits_push(nodes, query, waiting, next, c);
    }
}

/// The node that waits last is visited, and its children wait.
proof fn lemma_closed_descend(
    nodes: Seq<Node>,
    query: Seq<i16>,
    visited: Seq<int>,
    limit: int,
    waiting: Seq<(usize, i64)>,
    next: (usize, i64),
    a: (usize, i64),
    b: (usize, i64),
)
    requires
        closed_but(nodes, query, visited, limit, waiting.push(next)),
        !nodes[next.0 as int].is_leaf(),
        (a.0 == nodes[next.0 as int].left && b.0 == nodes[next.0 as int].right) || (a.0
            == nodes[next.0 as int].right && b.0 == nodes[next.0 as int].left),
        a.1 == node_distance(nodes, query, a.0 as int),
        b.1 == node_distance(nodes, query, b.0 as int),
    ensures
        closed_but(
            nodes,
            query,
            visited.push(next.0 as int),
            limit,
            waiting.push(a).push(b),
        ),
{
    let more = visited.push(next.0 as int);
    let two = waiting.push(a).push(b);
    lemma_push_parent(nodes, visited, next.0 as int);
    lemma_push_contains(visited, next.0 as int);
    assert forall|c: int| #[trigger] has_parent(nodes, more, c) implies more.contains(c)
        || node_distance(nodes, query, c) > limit || waits(nodes, query, two, c) by {
        lemma_waits_push(nodes, query, waiting, next, c);
        lemma_waits_push(nodes, query, waiting, a, c);
        lemma_waits_push(nodes, query, waiting.push(a), b, c);
    }
}

/// The node that waits last is visited, or dropped.
proof fn lemma_unvisited_next(
    nodes: Seq<Node>,
    lanes: Seq<Lane>,
    visited: Seq<int>,
    waiting: Seq<(usize, i64)>,
    next: (usize, i64),
)
    requires
        unvisited(nodes, visited, waiting.push(next)),
        has_tree(nodes, lanes, next.0 as int),
    ensures
        unvisited(nodes, visited, waiting),
        unvisited(nodes, visited.push(next.0 as int), waiting),
{
    let full = waiting.push(next);
    let n = waiting.len() as int;
    let v = next.0 as int;
    let more = visited.push(v);
    lemma_tree(nodes, lanes, v);
    lemma_push_contains(visited, v);
    assert(full[n] == next);
    assert(family(nodes, full[n].0 as int).contains(v));
    assert(!visited.contains(v));
    assert(more.no_duplicates()) by {
        assert forall|i: int, j: int| 0 <= i < more.len() && 0 <= j < more.len() && i != j implies more[i]
            != more[j] by {
            if i == visited.len() {
                assert(visited.contains(visited[j]));
            } else if j == visited.len() {
                assert(visited.contains(visited[i]));
            }
        }
    }
    assert forall|k: int, w: int|
        0 <= k < n && #[trigger] family(nodes, waiting[k].0 as int).contains(w) implies !more.contains(
        w,
    ) by {
        assert(full[k] == waiting[k]);
        assert(family(nodes, full[k].0 as int).contains(w));
        assert(family(nodes, full[k].0 as int).disjoint(family(nodes, full[n].0 as int)));
    }
    assert forall|k: int, l: int| 0 <= k < l < n implies family(
        nodes,
        (#[trigger] waiting[k]).0 as int,
    ).disjoint(family(nodes, (#[trigger] waiting[l]).0 as int)) by {
        assert(full[k] == waiting[k] && full[l] == waiting[l]);
    }
}

/// The node that waits last is visited, and its children wait.
proof fn lemma_unvisited_descend(
    nodes: Seq<Node>,
    lanes: Seq<Lane>,
    visited: Seq<int>,
    waiting: Seq<(usize, i64)>,
    next: (usize, i64),
    a: (usize, i64),
    b: (usize, i64),
)
    requires
        unvisited(nodes, visited, waiting.push(next)),
        has_tree(nodes, lanes, next.0 as int),
        apart(nodes, next.0 as int),
        !nodes[next.0 as int].is_leaf(),
        (a.0 == nodes[next.0 as int].left && b.0 == nodes[next.0 as int].right) || (a.0
            == nodes[next.0 as int].right && b.0 == nodes[next.0 as int].left),
    ensures
        unvisited(nodes, visited.push(next.0 as int), waiting.push(a).push(b)),
{
    let full = waiting.push(next);
    let n = waiting.len() as int;
    let v = next.0 as int;
    let more = visited.push(v);
    let two = waiting.push(a).push(b);
    lemma_unvisited_next(nodes, lanes, visited, waiting, next);
    lemma_tree(nodes, lanes, v);
    lemma_apart_below(nodes, lanes, v);
    lemma_push_contains(visited, v);
    assert(full[n] == next);
    let (fa, fb) = (family(nodes, a.0 as int), family(nodes, b.0 as int));
    let own = family(nodes, v);
    assert forall|w: int| fa.contains(w) || fb.contains(w) implies own.contains(w) && w != v
        && !visited.contains(w) by {
        assert(family(nodes, full[n].0 as int).contains(w));
    }
    assert forall|k: int, w: int|
        0 <= k < two.len() && #[trigger] family(nodes, two[k].0 as int).contains(w) implies !more.contains(
        w,
    ) by {
        if k < n {
            assert(two[k] == waiting[k]);
            assert(family(nodes, waiting[k].0 as int).contains(w));
        } else if k == n {
            assert(two[k] == a);
            assert(fa.contains(w));
        } else {
            assert(two[k] == b);
            assert(fb.contains(w));
        }
    }
    assert forall|k: int, l: int| 0 <= k < l < two.len() implies family(
        nodes,
        (#[trigger] two[k]).0 as int,
    ).disjoint(family(nodes, (#[trigger] two[l]).0 as int)) by {
        if l < n {
            assert(two[k] == waiting[k] && two[l] == waiting[l]);
        } else if k < n {
            assert(two[k] == waiting[k]);
            assert(full[k] == waiting[k]);
            assert(family(nodes, full[k].0 as int).disjoint(family(nodes, full[n].0 as int)));
            assert(two[l] == a || two[l] == b);
        } else {
            assert(two[k] == a && two[l] == b);
        }
    }
}

/// A walk stays linked where it enters another tree.
proof fn lemma_entered(nodes: Seq<Node>, entered: Seq<int>, root: int, visited: Seq<int>)
    requires
        linked(nodes, entered, visited),
    ensures
        linked(nodes, entered.push(root), visited),
{
    lemma_push_contains(entered, root);
}

/// The search is as exact as before where the same is accounted for and set aside.
proof fn lemma_same_search(
    before: Search,
    after: Search,
    nodes: Seq<Node>,
    lanes: Seq<Lane>,
    query: Seq<i16>,
    kin: Set<int>,
)
    requires
        before.exact_so_far(nodes, lanes, query, kin),
        after.best() == before.best(),
        after.done == before.done,
        after.pending == before.pending,
    ensures
        after.exact_so_far(nodes, lanes, query, kin),
{
}

/// A node on the stack has no more levels below it than are left at that depth.
spec fn has_room(nodes: Seq<Node>, lanes: Seq<Lane>, entry: (usize, i64), depth: int) -> bool {
    &&& depth < TREE_STACK_CAPACITY
    &&& stands(nodes, lanes, entry.0 as int, (TREE_STACK_CAPACITY - depth) as nat)
}

/// A walk through the tree whose nodes are `below`, under way: what it has visited and what waits
/// belong together; if it is tidy, it misses only nodes whose boxes are too far away; if it is fresh,
/// it visits no node twice.
spec fn walk_goes_on(
    nodes: Seq<Node>,
    lanes: Seq<Lane>,
    query: Seq<i16>,
    below: Set<int>,
    entered: Seq<int>,
    visited: Seq<int>,
    limit: int,
    waiting: Seq<(usize, i64)>,
    tidy: bool,
    fresh: bool,
) -> bool {
    &&& walk_holds(nodes, entered, visited, waiting)
    &&& forall|k: int|
        0 <= k < waiting.len() ==> family(nodes, (#[trigger] waiting[k]).0 as int).subset_of(below)
    &&& tidy ==> closed_but(nodes, query, visited, limit, waiting) && forall|k: int|
        0 <= k < waiting.len() ==> has_room(nodes, lanes, #[trigger] waiting[k], k)
    &&& fresh ==> unvisited(nodes, visited, waiting) && forall|k: int|
        0 <= k < waiting.len() ==> apart(nodes, (#[trigger] waiting[k]).0 as int)
}

/// The walk passes over a node whose box is too far away.
proof fn lemma_pass_over(
    nodes: Seq<Node>,
    lanes: Seq<Lane>,
    query: Seq<i16>,
    below: Set<int>,
    entered: Seq<int>,
    visited: Seq<int>,
    limit: int,
    waiting: Seq<(usize, i64)>,
    next: (usize, i64),
    tidy: bool,
    fresh: bool,
)
    requires
        walk_goes_on(
            nodes,
            lanes,
            query,
            below,
            entered,
            visited,
            limit,
            waiting.push(next),
            tidy,
            fresh,
        ),
        has_tree(nodes, lanes, next.0 as int),
        tidy ==> next.1 > limit,
    ensures
        walk_goes_on(nodes, lanes, query, below, entered, visited, limit, waiting, tidy, fresh),
{
    let full = waiting.push(next);
    lemma_walk_drop(nodes, entered, visited, waiting, next);
    assert(forall|k: int| 0 <= k < waiting.len() ==> full[k] == #[trigger] waiting[k]);
    assert forall|k: int| 0 <= k < waiting.len() implies family(
        nodes,
        (#[trigger] waiting[k]).0 as int,
    ).subset_of(below) by {
        assert(full[k] == waiting[k]);
    }
    if tidy {
        lemma_closed_next(nodes, query, visited, limit, waiting, next, limit);
        assert(closed_but(nodes, query, visited, limit, waiting));
        assert forall|k: int| 0 <= k < waiting.len() implies has_room(
            nodes,
            lanes,
            #[trigger] waiting[k],
            k,
        ) by {
            assert(full[k] == waiting[k]);
        }
    }
    if fresh {
        lemma_unvisited_next(nodes, lanes, visited, waiting, next);
        assert(unvisited(nodes, visited, waiting));
        assert forall|k: int| 0 <= k < waiting.len() implies apart(
            nodes,
            (#[trigger] waiting[k]).0 as int,
        ) by {
            assert(full[k] == waiting[k]);
        }
    }
    assert(walk_holds(nodes, entered, visited, waiting));
}

/// The walk visits a node and does not go on below it.
proof fn lemma_visit_leaf(
    nodes: Seq<Node>,
    lanes: Seq<Lane>,
    query: Seq<i16>,
    below: Set<int>,
    entered: Seq<int>,
    visited: Seq<int>,
    limit: int,
    waiting: Seq<(usize, i64)>,
    next: (usize, i64),
    lower: int,
    tidy: bool,
    fresh: bool,
)
    requires
        walk_goes_on(
            nodes,
            lanes,
            query,
            below,
            entered,
            visited,
            limit,
            waiting.push(next),
            tidy,
            fresh,
        ),
        has_tree(nodes, lanes, next.0 as int),
        tidy ==> nodes[next.0 as int].is_leaf(),
        lower <= limit,
    ensures
        walk_goes_on(
            nodes,
            lanes,
            query,
            below,
            entered,
            visited.push(next.0 as int),
            lower,
            waiting,
            tidy,
            fresh,
        ),
        below.contains(next.0 as int),
{
    let full = waiting.push(next);
    lemma_walk_visit(nodes, entered, visited, waiting, next);
    assert(forall|k: int| 0 <= k < waiting.len() ==> full[k] == #[trigger] waiting[k]);
    assert(full[waiting.len() as int] == next);
    lemma_tree(nodes, lanes, next.0 as int);
    if tidy {
        lemma_closed_next(nodes, query, visited, limit, waiting, next, lower);
    }
    if fresh {
        lemma_unvisited_next(nodes, lanes, visited, waiting, next);
    }
}

/// The walk visits a node, and the two below it wait.
proof fn lemma_visit_inner(
    nodes: Seq<Node>,
    lanes: Seq<Lane>,
    query: Seq<i16>,
    below: Set<int>,
    entered: Seq<int>,
    visited: Seq<int>,
    limit: int,
    waiting: Seq<(usize, i64)>,
    next: (usize, i64),
    a: (usize, i64),
    b: (usize, i64),
    tidy: bool,
    fresh: bool,
)
    requires
        walk_goes_on(
            nodes,
            lanes,
            query,
            below,
            entered,
            visited,
            limit,
            waiting.push(next),
            tidy,
            fresh,
        ),
        has_tree(nodes, lanes, next.0 as int),
        !nodes[next.0 as int].is_leaf(),
        (a.0 == nodes[next.0 as int].left && b.0 == nodes[next.0 as int].right) || (a.0
            == nodes[next.0 as int].right && b.0 == nodes[next.0 as int].left),
        a.1 == node_distance(nodes, query, a.0 as int),
        b.1 == node_distance(nodes, query, b.0 as int),
    ensures
        walk_goes_on(
            nodes,
            lanes,
            query,
            below,
            entered,
            visited.push(next.0 as int),
            limit,
            waiting.push(a).push(b),
            tidy,
            fresh,
        ),
        below.contains(next.0 as int),
        tidy ==> waiting.len() < TREE_STACK_CAPACITY,
{
    let full = waiting.push(next);
    let n = waiting.len() as int;
    let v = next.0 as int;
    let more = visited.push(v);
    let two = waiting.push(a).push(b);
    assert(full[n] == next);
    assert(forall|k: int| 0 <= k < n ==> full[k] == #[trigger] two[k]);
    assert(two[n] == a && two[n + 1] == b);
    lemma_tree(nodes, lanes, v);
    lemma_walk_visit(nodes, entered, visited, waiting, next);
    lemma_push_parent(nodes, visited, v);
    assert(has_parent(nodes, more, a.0 as int) && has_parent(nodes, more, b.0 as int)) by {
        assert(child_of(nodes, a.0 as int, v) && child_of(nodes, b.0 as int, v));
    }
    lemma_walk_wait(nodes, entered, more, waiting, a);
    lemma_walk_wait(nodes, entered, more, waiting.push(a), b);
    if tidy {
        lemma_closed_descend(nodes, query, visited, limit, waiting, next, a, b);
        let levels = (TREE_STACK_CAPACITY - n) as nat;
        let fewer = (levels - 1) as nat;
        assert(stands(nodes, lanes, v, levels));
        assert(stands(nodes, lanes, a.0 as int, fewer));
        assert(stands(nodes, lanes, b.0 as int, fewer));
        lemma_more_levels(nodes, lanes, a.0 as int, fewer, levels);
    }
    if fresh {
        lemma_unvisited_descend(nodes, lanes, visited, waiting, next, a, b);
        lemma_apart_below(nodes, lanes, v);
    }
}

impl Forest {
    /// Searches the tree at `root`, whose references reach no nearer than `root_bound`.
    ///
    /// Where the tree is orderly, the candidates stay the nearest of what is accounted for, and
    /// everything below `root` is accounted for or set aside.
    #[verifier::rlimit(40)]
    #[verifier::spinoff_prover]
    pub fn search_node_iterative(
        &self,
        root: usize,
        root_bound: i64,
        query: &QueryVector,
        partition_key: u32,
        st: &mut Search,
        kin: Ghost<Set<int>>,
        scope: Ghost<Set<int>>,
        keyed: Ghost<Set<(u32, int)>>,
    )
        requires
            self.wf(),
            has_tree(self.nodes@, self.lanes@, root as int),
            old(st).in_order(self.nodes@, self.lanes@, query@, scope@),
            covers(self.nodes@, root as int).subset_of(scope@),
        ensures
            final(st).in_order(self.nodes@, self.lanes@, query@, scope@),
            final(st).best().limit() <= old(st).best().limit(),
            final(st).stats.partitions_visited == (old(st).stats.partitions_visited + 1)
                % 0x1_0000_0000,
            final(st).stats.secondary_partitions == old(st).stats.secondary_partitions,
            final(st).pending.enabled == old(st).pending.enabled,
            !old(st).pending.enabled ==> final(st).pending@ == old(st).pending@ && final(st).pending.label == old(st).pending.label,
            old(st).best().keyed_by(keyed@) && holds_all(
                keyed@,
                partition_key,
                covers(self.nodes@, root as int),
            ) ==> final(st).best().keyed_by(keyed@),
            searched(
                *old(st),
                *final(st),
                self.nodes@,
                self.lanes@,
                query@,
                kin@,
                root,
                root_bound,
            ),
            final(st).entered@ == old(st).entered@.push(root as int),
            final(st).trail() == trail::entered_at(
                self.nodes@,
                self.lanes@,
                query@,
                partition_key,
                root as int,
                root_bound as int,
                old(st).trail(),
            ),
            walked(*old(st), *final(st), self.nodes@, self.lanes@, query@, root, root_bound),
    {
        let ghost nodes = self.nodes@;
        let ghost lanes = self.lanes@;
        let ghost below = covers(nodes, root as int);
        let ghost tribe = family(nodes, root as int);
        let ghost base = st.done@.union(st.deferred(nodes)).union(below);
        let ghost go = search_begins(*st, nodes, lanes, query@, kin@, root, root_bound);
        let ghost tidy = !st.pending.enabled && shallow(nodes, lanes, root as int) && closed(
            nodes,
            query@,
            st.visited@,
            st.best().limit(),
        );
        let ghost fresh = !st.pending.enabled && apart(nodes, root as int)
            && st.visited@.no_duplicates() && (forall|v: int| #[trigger]
            tribe.contains(v) ==> !st.visited@.contains(v));
        let ghost tracked_keys = st.best().keyed_by(keyed@) && holds_all(
            keyed@,
            partition_key,
            below,
        );
        st.stats.partitions_visited = st.stats.partitions_visited.wrapping_add(1);
        st.entered = Ghost(st.entered@.push(root as int));
        let ghost goal = trail::walk_to(
            nodes,
            lanes,
            query@,
            partition_key,
            root as int,
            root_bound as int,
            st.trail(),
            0,
            nodes.len(),
        );
        let mut stack: Vec<(usize, i64)> = Vec::with_capacity(TREE_STACK_CAPACITY);
        let mut current: usize = root;
        let mut current_bound: i64 = root_bound;
        let mut more: bool = true;
        proof {
            lemma_tree(nodes, lanes, root as int);
            lemma_stack_push(nodes, stack@, (root, root_bound));
            let one = stack@.push((root, root_bound));
            assert(one[0] == (root, root_bound));
            assert(stack@ =~= Seq::<(usize, i64)>::empty());
            trail::lemma_unwound_one(
                nodes,
                lanes,
                query@,
                partition_key,
                (root, root_bound),
                st.trail(),
            );
            lemma_entered(nodes, old(st).entered@, root as int, st.visited@);
            assert(st.entered@[st.entered@.len() - 1] == root);
            assert(walk_holds(nodes, st.entered@, st.visited@, one));
            assert(walk_goes_on(
                nodes,
                lanes,
                query@,
                tribe,
                st.entered@,
                st.visited@,
                st.best().limit(),
                one,
                tidy,
                fresh,
            ));
            if go {
                assert(stack_covers(nodes, one) =~= below);
                assert forall|k: int| 0 <= k < one.len() implies entry_holds(
                    nodes,
                    lanes,
                    query@,
                    kin@,
                    #[trigger] one[k],
                    k,
                ) by {
                    assert(one[k] == (root, root_bound));
                }
                lemma_same_search(*old(st), *st, nodes, lanes, query@, kin@);
                assert(frontier_holds(
                    *st,
                    nodes,
                    lanes,
                    query@,
                    kin@,
                    stack@,
                    current,
                    current_bound,
                    base,
                ));
            }
        }
        while more
            invariant
                self.wf(),
                nodes == self.nodes@,
                lanes == self.lanes@,
                below == covers(nodes, root as int),
                tribe == family(nodes, root as int),
                below.subset_of(scope@),
                stack@.len() <= TREE_STACK_CAPACITY,
                more ==> has_tree(nodes, lanes, current as int),
                more ==> covers(nodes, current as int).subset_of(below),
                !more ==> stack@.len() == 0,
                stack_fits(nodes, lanes, stack@),
                stack_covers(nodes, stack@).subset_of(below),
                st.in_order(nodes, lanes, query@, scope@),
                st.best().limit() <= old(st).best().limit(),
                st.stats.partitions_visited == (old(st).stats.partitions_visited + 1)
                    % 0x1_0000_0000,
                st.stats.secondary_partitions == old(st).stats.secondary_partitions,
                st.entered@ == old(st).entered@.push(root as int),
                st.limits == old(st).limits,
                goal == trail::unwound(
                    nodes,
                    lanes,
                    query@,
                    partition_key,
                    if more {
                        stack@.push((current, current_bound))
                    } else {
                        stack@
                    },
                    st.trail(),
                ),
                st.pending.enabled == old(st).pending.enabled,
                !old(st).pending.enabled ==> st.pending@ == old(st).pending@ && st.pending.label
                    == old(st).pending.label,
                tidy || fresh ==> !old(st).pending.enabled,
                tracked_keys ==> holds_all(keyed@, partition_key, below) && st.best().keyed_by(
                    keyed@,
                ),
                go && more ==> frontier_holds(
                    *st,
                    nodes,
                    lanes,
                    query@,
                    kin@,
                    stack@,
                    current,
                    current_bound,
                    base,
                ),
                go && !more ==> rest_holds(*st, nodes, lanes, query@, kin@, stack@, base),
                more ==> walk_goes_on(
                    nodes,
                    lanes,
                    query@,
                    tribe,
                    st.entered@,
                    st.visited@,
                    st.best().limit(),
                    stack@.push((current, current_bound)),
                    tidy,
                    fresh,
                ),
                !more ==> walk_goes_on(
                    nodes,
                    lanes,
                    query@,
                    tribe,
                    st.entered@,
                    st.visited@,
                    st.best().limit(),
                    stack@,
                    tidy,
                    fresh,
                ),
                forall|v: int| #[trigger]
                    st.visited@.contains(v) ==> old(st).visited@.contains(v) || tribe.contains(v),
                forall|v: int| #[trigger]
                    old(st).visited@.contains(v) ==> st.visited@.contains(v),
                st.visited@.contains(root as int) || root_bound > old(st).best().limit() || (more
                    && current == root && current_bound == root_bound && st.best().limit() == old(
                    st,
                ).best().limit()),
            decreases
                    stack_weight(nodes, stack@) + if more {
                        weight(nodes, current as int)
                    } else {
                        0
                    },
        {
            let ghost before = *st;
            let ghost waiting = stack@;
            let ghost next = (current, current_bound);
            proof {
                lemma_tree(nodes, lanes, current as int);
                lemma_push_contains(st.visited@, current as int);
            }
            let mut descended: bool = false;
            if current_bound <= st.limit() {
                let node = self.nodes[current];
                st.count_node(&node, current, Ghost(nodes));
                proof {
                    lemma_visit_leaf(
                        nodes,
                        lanes,
                        query@,
                        tribe,
                        st.entered@,
                        before.visited@,
                        before.best().limit(),
                        waiting,
                        next,
                        before.best().limit(),
                        false,
                        fresh,
                    );
                    if go {
                        lemma_same_frontier(
                            before,
                            *st,
                            nodes,
                            lanes,
                            query@,
                            kin@,
                            stack@.push((current, current_bound)),
                            base,
                        );
                    }
                }
                let ghost counted = *st;
                if node.left < 0 || node.right < 0 {
                    proof {
                        lemma_stack_push(nodes, stack@, (current, current_bound));
                        if go {
                            assert(counted.done@.disjoint(covers(nodes, current as int))) by {
                                lemma_stack_contains(
                                    nodes,
                                    stack@.push((current, current_bound)),
                                    stack@.len() as int,
                                );
                            }
                        }
                    }
                    self.scan_leaf(current, query, partition_key, st, kin, scope, keyed);
                    proof {
                        trail::lemma_unwound_leaf(
                            nodes,
                            lanes,
                            query@,
                            partition_key,
                            waiting,
                            next,
                            before.trail(),
                        );
                        lemma_visit_leaf(
                            nodes,
                            lanes,
                            query@,
                            tribe,
                            st.entered@,
                            before.visited@,
                            before.best().limit(),
                            waiting,
                            next,
                            st.best().limit(),
                            tidy,
                            fresh,
                        );
                        if go {
                            lemma_accounted(
                                counted,
                                *st,
                                nodes,
                                lanes,
                                query@,
                                kin@,
                                stack@,
                                current,
                                current_bound,
                                base,
                            );
                        }
                    }
                } else if st.pending.try_defer(
                    current,
                    current_bound,
                    &st.dists,
                    &st.labels,
                    node.class_bits,
                ) {
                    proof {
                        assert(st.best() == counted.best());
                        trail::lemma_unwound_aside(
                            nodes,
                            lanes,
                            query@,
                            partition_key,
                            waiting,
                            next,
                            before.trail(),
                        );
                        lemma_stack_push(nodes, counted.pending@, (current, current_bound));
                        assert(st.deferred(nodes) =~= counted.deferred(nodes).union(
                            covers(nodes, current as int),
                        ));
                        assert forall|k: int| 0 <= k < st.pending@.len() implies has_tree(
                            nodes,
                            lanes,
                            (#[trigger] st.pending@[k]).0 as int,
                        ) by {
                            if k < counted.pending@.len() {
                                assert(st.pending@[k] == counted.pending@[k]);
                            }
                        }
                        if go {
                            lemma_set_aside(
                                counted,
                                *st,
                                nodes,
                                lanes,
                                query@,
                                kin@,
                                stack@,
                                current,
                                current_bound,
                                base,
                            );
                        }
                    }
                } else {
                    proof {
                        assert(st.best() == counted.best());
                        if go {
                            lemma_same_frontier(
                                counted,
                                *st,
                                nodes,
                                lanes,
                                query@,
                                kin@,
                                stack@.push((current, current_bound)),
                                base,
                            );
                        }
                    }
                    let l: usize = node.left as usize;
                    let r: usize = node.right as usize;
                    proof {
                        lemma_tree(nodes, lanes, l as int);
                        lemma_tree(nodes, lanes, r as int);
                    }
                    let left_node = self.nodes[l];
                    let right_node = self.nodes[r];
                    let lb: i64 = knn::lower_bound_box(query, &left_node.min, &left_node.max);
                    let rb: i64 = knn::lower_bound_box(query, &right_node.min, &right_node.max);
                    let (near, far): ((usize, i64), (usize, i64)) = if lb <= rb {
                        ((l, lb), (r, rb))
                    } else {
                        ((r, rb), (l, lb))
                    };
                    proof {
                        trail::lemma_unwound_inner(
                            nodes,
                            lanes,
                            query@,
                            partition_key,
                            waiting,
                            next,
                            near,
                            far,
                            before.trail(),
                        );
                        lemma_stack_push(nodes, stack@, far);
                        assert(covers(nodes, l as int).subset_of(covers(nodes, current as int)));
                        assert(covers(nodes, r as int).subset_of(covers(nodes, current as int)));
                        lemma_visit_inner(
                            nodes,
                            lanes,
                            query@,
                            tribe,
                            st.entered@,
                            before.visited@,
                            before.best().limit(),
                            waiting,
                            next,
                            far,
                            near,
                            tidy,
                            fresh,
                        );
                        lemma_visit_inner(
                            nodes,
                            lanes,
                            query@,
                            tribe,
                            st.entered@,
                            before.visited@,
                            before.best().limit(),
                            waiting,
                            next,
                            near,
                            far,
                            tidy,
                            fresh,
                        );
                        if go {
                            lemma_descend(
                                *st,
                                nodes,
                                lanes,
                                query@,
                                kin@,
                                stack@,
                                current,
                                current_bound,
                                far,
                                near,
                                base,
                            );
                        }
                    }
                    let ghost split = stack@;
                    if far.1 <= st.limit() && stack.len() < TREE_STACK_CAPACITY {
                        stack.push(far);
                        proof {
                            assert forall|k: int| 0 <= k < stack@.len() implies has_tree(
                                nodes,
                                lanes,
                                (#[trigger] stack@[k]).0 as int,
                            ) by {
                                if k < split.len() {
                                    assert(stack@[k] == split[k]);
                                }
                            }
                        }
                    } else {
                        proof {
                            lemma_pass_over(
                                nodes,
                                lanes,
                                query@,
                                tribe,
                                st.entered@,
                                st.visited@,
                                st.best().limit(),
                                split.push(near),
                                far,
                                tidy,
                                fresh,
                            );
                            if go {
                                lemma_drop_far(
                                    *st,
                                    nodes,
                                    lanes,
                                    query@,
                                    kin@,
                                    split,
                                    far,
                                    near,
                                    base,
                                );
                            }
                        }
                        st.done = Ghost(st.done@.union(covers(nodes, far.0 as int)));
                    }
                    let ghost settled = *st;
                    assert(go ==> frontier_holds(
                        settled,
                        nodes,
                        lanes,
                        query@,
                        kin@,
                        stack@,
                        near.0,
                        near.1,
                        base,
                    ));
                    if near.1 <= st.limit() {
                        current = near.0;
                        current_bound = near.1;
                        descended = true;
                    } else {
                        proof {
                            trail::lemma_unwound_far(
                                nodes,
                                lanes,
                                query@,
                                partition_key,
                                stack@,
                                near,
                                st.trail(),
                            );
                            lemma_pass_over(
                                nodes,
                                lanes,
                                query@,
                                tribe,
                                st.entered@,
                                st.visited@,
                                st.best().limit(),
                                stack@,
                                near,
                                tidy,
                                fresh,
                            );
                            if go {
                                lemma_stack_push(nodes, stack@, near);
                                assert(stack@.push(near)[stack@.len() as int] == near);
                                lemma_too_far(
                                    *st,
                                    nodes,
                                    lanes,
                                    query@,
                                    kin@,
                                    near.0 as int,
                                    near.1,
                                );
                            }
                        }
                        st.done = Ghost(st.done@.union(covers(nodes, near.0 as int)));
                        proof {
                            if go {
                                lemma_accounted(
                                    settled,
                                    *st,
                                    nodes,
                                    lanes,
                                    query@,
                                    kin@,
                                    stack@,
                                    near.0,
                                    near.1,
                                    base,
                                );
                            }
                        }
                    }
                }
            } else {
                proof {
                    trail::lemma_unwound_far(
                        nodes,
                        lanes,
                        query@,
                        partition_key,
                        waiting,
                        next,
                        st.trail(),
                    );
                    lemma_pass_over(
                        nodes,
                        lanes,
                        query@,
                        tribe,
                        st.entered@,
                        st.visited@,
                        st.best().limit(),
                        waiting,
                        next,
                        tidy,
                        fresh,
                    );
                    if go {
                        assert(stack@.push((current, current_bound))[stack@.len() as int] == (
                            current,
                            current_bound,
                        ));
                        lemma_too_far(
                            *st,
                            nodes,
                            lanes,
                            query@,
                            kin@,
                            current as int,
                            current_bound,
                        );
                    }
                }
                st.done = Ghost(st.done@.union(covers(nodes, current as int)));
                proof {
                    if go {
                        lemma_accounted(
                            before,
                            *st,
                            nodes,
                            lanes,
                            query@,
                            kin@,
                            stack@,
                            current,
                            current_bound,
                            base,
                        );
                    }
                }
            }
            if !descended {
                let ghost full = stack@;
                match stack.pop() {
                    Some((idx, bound)) => {
                        current = idx;
                        current_bound = bound;
                        proof {
                            assert(full[full.len() - 1] == (idx, bound));
                            assert(full =~= stack@.push((idx, bound)));
                            lemma_stack_push(nodes, stack@, (idx, bound));
                            assert forall|k: int| 0 <= k < stack@.len() implies has_tree(
                                nodes,
                                lanes,
                                (#[trigger] stack@[k]).0 as int,
                            ) by {
                                assert(stack@[k] == full[k]);
                            }
                        }
                    },
                    None => {
                        more = false;
                    },
                }
            }
        }
        proof {
            assert(stack@ =~= Seq::<(usize, i64)>::empty());
            trail::lemma_unwound_none(nodes, lanes, query@, partition_key, st.trail());
        }
        st.limits = Ghost(st.limits@.push(st.best().limit()));
        proof {
            if go {
                assert(st.done@.union(st.deferred(nodes)) =~= base);
            }
            if tidy {
                assert forall|c: int| #[trigger] has_parent(nodes, st.visited@, c) implies st.visited@.contains(
                    c,
                ) || node_distance(nodes, query@, c) > st.best().limit() by {
                    assert(!waits(nodes, query@, stack@, c));
                }
            }
        }
    }
}

/// Where the candidates agree on the label for which subtrees were set aside, nothing in these
/// could change the count.
proof fn lemma_deferred_agree(
    st: Search,
    nodes: Seq<Node>,
    lanes: Seq<Lane>,
    query: Seq<i16>,
    kin: Set<int>,
)
    requires
        classes_hold(nodes, lanes, kin),
        st.pending_fits(nodes, lanes),
        st.exact_so_far(nodes, lanes, query, kin),
        knn::two_labels(lanes, st.done@),
        st.pending@.len() > 0 ==> search::consensus(st.dists@, st.labels@) == st.pending.label,
    ensures
        knn::counts_nearest(
            st.best().frauds(),
            query,
            lanes,
            reach(nodes, lanes, query, kin),
            st.done@.union(st.deferred(nodes)),
        ),
{
    let far = reach(nodes, lanes, query, kin);
    lemma_reach_holds(nodes, lanes, query, kin);
    let n = st.best();
    let deferred = st.deferred(nodes);
    let all = st.done@.union(deferred);
    if st.pending@.len() == 0 {
        assert(all =~= st.done@);
        assert(n.nearest(query, lanes, far, all));
    } else {
        let label = st.pending.label.unwrap();
        assert forall|i: int| 0 <= i < K implies #[trigger] n.labels[i] == label by {
            assert(n.candidate_holds(i, query, lanes, st.done@));
            assert(n.candidate_holds(0, query, lanes, st.done@));
            assert(n.candidate_holds(1, query, lanes, st.done@));
            assert(n.candidate_holds(2, query, lanes, st.done@));
            assert(n.candidate_holds(3, query, lanes, st.done@));
            assert(n.candidate_holds(4, query, lanes, st.done@));
            assert(n.labels[0] <= 1 && n.labels[1] <= 1 && n.labels[2] <= 1 && n.labels[3] <= 1
                && n.labels[4] <= 1);
        }
        let m = knn::lemma_one_label(
            n,
            query,
            lanes,
            far,
            st.done@,
            deferred,
            label,
            lanes.len() as int,
        );
        lemma_stack_covers_in_range(nodes, lanes, st.pending@);
        assert(st.done@.union(deferred.intersect(Set::new(|p: int| 0 <= p < lanes.len())))
            =~= all);
        assert(m.nearest(query, lanes, far, all));
        assert(m.labels[0] == label && m.labels[1] == label && m.labels[2] == label && m.labels[3]
            == label && m.labels[4] == label);
        assert(n.labels[0] == label && n.labels[1] == label && n.labels[2] == label && n.labels[3]
            == label && n.labels[4] == label);
        assert(m.frauds() == n.frauds());
    }
}

/// The roots of the subtrees from `from` on at which a search enters them that takes them back, the
/// last one first, where `limits` are the largest distances among the candidates at the time: those
/// whose bounds are not over the limit.
pub open spec fn taken_back(
    pending: Seq<(usize, i64)>,
    limits: Seq<int>,
    from: int,
) -> Seq<int>
    decreases pending.len() - from,
{
    if from < 0 || from >= pending.len() {
        Seq::empty()
    } else if pending[from].1 <= limits[from] {
        taken_back(pending, limits, from + 1).push(pending[from].0 as int)
    } else {
        taken_back(pending, limits, from + 1)
    }
}

/// The largest distances among the candidates as the subtrees are taken back, the last one first: the
/// first is that before all, none is larger than the one before it, and passing over a subtree does
/// not change it.
pub open spec fn limits_fall(
    pending: Seq<(usize, i64)>,
    limits: Seq<int>,
    first: int,
    last: int,
    from: int,
) -> bool {
    &&& limits.len() == pending.len()
    &&& from < pending.len() ==> limits[pending.len() - 1] == first
    &&& from == pending.len() ==> last == first
    &&& forall|k: int|
        from < k < pending.len() ==> limits[k - 1] <= #[trigger] limits[k] && (pending[k].1
            > limits[k] ==> limits[k - 1] == limits[k])
    &&& from < pending.len() ==> last <= limits[from] && (pending[from].1 > limits[from] ==> last
        == limits[from])
}

proof fn lemma_taken_back_stays(
    pending: Seq<(usize, i64)>,
    limits: Seq<int>,
    other: Seq<int>,
    from: int,
)
    requires
        forall|k: int| from <= k < pending.len() ==> #[trigger] limits[k] == other[k],
    ensures
        taken_back(pending, limits, from) == taken_back(pending, other, from),
    decreases pending.len() - from,
{
    if 0 <= from < pending.len() {
        lemma_taken_back_stays(pending, limits, other, from + 1);
        assert(limits[from] == other[from]);
    }
}

impl Forest {
    /// Searches the subtrees that were set aside, the last one first, if the candidates no longer
    /// agree on the label for which they were.
    ///
    /// Where the search has been exact, the number of fraudulent candidates is then that among the
    /// nearest of all that is accounted for or was set aside.
    pub fn replay_pending_if_needed(
        &self,
        query: &QueryVector,
        st: &mut Search,
        kin: Ghost<Set<int>>,
        scope: Ghost<Set<int>>,
    )
        requires
            self.wf(),
            old(st).in_order(self.nodes@, self.lanes@, query@, scope@),
        ensures
            final(st).in_order(self.nodes@, self.lanes@, query@, scope@),
            final(st).best().limit() <= old(st).best().limit(),
            final(st).trail() == trail::replayed(self.nodes@, self.lanes@, query@, old(st).trail()),
            old(st).pending@.len() == 0 || search::consensus(old(st).dists@, old(st).labels@)
                == old(st).pending.label ==> *final(st) == *old(st),
            old(st).pending@.len() > 0 && search::consensus(old(st).dists@, old(st).labels@)
                != old(st).pending.label ==> {
                &&& final(st).pending@.len() == 0
                &&& final(st).pending.label is None
                &&& final(st).pending.enabled == old(st).pending.enabled
                &&& exists|limits: Seq<int>|
                    {
                        &&& #[trigger] limits_fall(
                            old(st).pending@,
                            limits,
                            old(st).best().limit(),
                            final(st).best().limit(),
                            0,
                        )
                        &&& final(st).entered@ == old(st).entered@ + taken_back(
                            old(st).pending@,
                            limits,
                            0,
                        )
                    }
                &&& old(st).exact_so_far(self.nodes@, self.lanes@, query@, kin@)
                    ==> final(st).best().nearest(
                    query@,
                    self.lanes@,
                    reach(self.nodes@, self.lanes@, query@, kin@),
                    old(st).done@.union(old(st).deferred(self.nodes@)),
                )
            },
            classes_hold(self.nodes@, self.lanes@, kin@) && old(st).exact_so_far(
                self.nodes@,
                self.lanes@,
                query@,
                kin@,
            ) && knn::two_labels(self.lanes@, old(st).done@) ==> knn::counts_nearest(
                final(st).best().frauds(),
                query@,
                self.lanes@,
                reach(self.nodes@, self.lanes@, query@, kin@),
                old(st).done@.union(old(st).deferred(self.nodes@)),
            ),
    {
        let ghost nodes = self.nodes@;
        let ghost lanes = self.lanes@;
        let ghost all = st.done@.union(st.deferred(nodes));
        let ghost far = reach(nodes, lanes, query@, kin@);
        let ghost go = st.exact_so_far(nodes, lanes, query@, kin@);
        let ghost pending = st.pending@;
        let ghost mut limits: Seq<int> = Seq::new(pending.len(), |k: int| 0int);
        if !st.pending.should_replay(&st.dists, &st.labels) {
            proof {
                if go && classes_hold(nodes, lanes, kin@) && knn::two_labels(lanes, st.done@) {
                    lemma_deferred_agree(*st, nodes, lanes, query@, kin@);
                }
            }
            return;
        }
        let enabled: bool = st.pending.enabled;
        st.pending.enabled = false;
        assert(st.pending@ =~= old(st).pending@);
        let ghost goal = trail::retraced(nodes, lanes, query@, st.pending@, st.trail());
        assert(pending.take(pending.len() as int) =~= pending);
        assert(st.entered@ =~= old(st).entered@ + taken_back(pending, limits, pending.len() as int));
        let mut more: bool = true;
        while more
            invariant
                self.wf(),
                nodes == self.nodes@,
                lanes == self.lanes@,
                st.in_order(nodes, lanes, query@, scope@),
                st.best().limit() <= old(st).best().limit(),
                !st.pending.enabled,
                far == reach(nodes, lanes, query@, kin@),
                pending == old(st).pending@,
                st.pending@.len() <= pending.len(),
                st.pending@ == pending.take(st.pending@.len() as int),
                limits_fall(
                    pending,
                    limits,
                    old(st).best().limit(),
                    st.best().limit(),
                    st.pending@.len() as int,
                ),
                st.entered@ == old(st).entered@ + taken_back(
                    pending,
                    limits,
                    st.pending@.len() as int,
                ),
                !more ==> st.pending@.len() == 0 && st.pending.label is None && st.trail()
                    == (Trail { label: None, ..goal }),
                more ==> goal == trail::retraced(nodes, lanes, query@, st.pending@, st.trail()),
                go ==> st.exact_so_far(nodes, lanes, query@, kin@) && st.done@.union(
                    st.deferred(nodes),
                ) == all,
            decreases
                    st.pending@.len() + if more {
                        1nat
                    } else {
                        0
                    },
        {
            let ghost before = *st;
            match st.pending.pop() {
                Some((root, bound)) => {
                    let ghost below = covers(nodes, root as int);
                    proof {
                        let full = before.pending@;
                        assert(full[full.len() - 1] == (root, bound));
                        assert(st.pending@.push((root, bound)) =~= full);
                        lemma_stack_push(nodes, st.pending@, (root, bound));
                        assert forall|k: int| 0 <= k < st.pending@.len() implies has_tree(
                            nodes,
                            lanes,
                            (#[trigger] st.pending@[k]).0 as int,
                        ) by {
                            assert(st.pending@[k] == full[k]);
                        }
                        let m = st.pending@.len() as int;
                        let old_limits = limits;
                        limits = limits.update(m, st.best().limit());
                        assert(pending[m] == full[m]);
                        assert(st.pending@ =~= pending.take(m));
                        lemma_taken_back_stays(pending, limits, old_limits, m + 1);
                        assert(st.best() == before.best());
                        if go {
                            assert(st.done@.disjoint(below)) by {
                                assert forall|p: int| st.done@.contains(p) implies !below.contains(
                                    p,
                                ) by {
                                    if below.contains(p) {
                                        assert(before.deferred(nodes).contains(p));
                                    }
                                }
                            }
                            assert(st.done@.disjoint(st.deferred(nodes))) by {
                                assert forall|p: int| st.done@.contains(p) implies !st.deferred(
                                    nodes,
                                ).contains(p) by {
                                    if st.deferred(nodes).contains(p) {
                                        assert(before.deferred(nodes).contains(p));
                                    }
                                }
                            }
                            assert forall|k: int| 0 <= k < st.pending@.len() implies {
                                let i = (#[trigger] st.pending@[k]).0 as int;
                                &&& bound_holds(nodes, far, i, st.pending@[k].1 as int)
                                &&& orderly(nodes, lanes, i)
                                &&& family(nodes, i).subset_of(kin@)
                            } by {
                                assert(st.pending@[k] == full[k]);
                            }
                            if classes_hold(nodes, lanes, kin@) {
                                assert forall|p: int| #[trigger]
                                    st.deferred(nodes).contains(p) implies st.pending.label == Some(
                                    lanes[p].label,
                                ) by {
                                    assert(before.deferred(nodes).contains(p));
                                }
                            }
                            assert(st.exact_so_far(nodes, lanes, query@, kin@));
                            assert(st.done@.union(st.deferred(nodes)).union(below) =~= all);
                        }
                    }
                    if bound > st.limit() {
                        let ghost popped = *st;
                        proof {
                            if go {
                                lemma_too_far(*st, nodes, lanes, query@, kin@, root as int, bound);
                            }
                        }
                        st.done = Ghost(st.done@.union(below));
                        proof {
                            if go {
                                assert(st.done@.disjoint(st.deferred(nodes))) by {
                                    assert forall|p: int| st.done@.contains(
                                        p,
                                    ) implies !st.deferred(nodes).contains(p) by {}
                                }
                                assert(st.done@.union(st.deferred(nodes)) =~= all);
                            }
                        }
                    } else {
                        self.search_node_iterative(
                            root,
                            bound,
                            query,
                            u32::MAX,
                            st,
                            kin,
                            scope,
                            Ghost(Set::empty()),
                        );
                        proof {
                            assert(st.entered@ =~= old(st).entered@ + taken_back(
                                pending,
                                limits,
                                st.pending@.len() as int,
                            ));
                        }
                    }
                },
                None => {
                    more = false;
                    proof {
                        assert(goal == before.trail());
                        assert(st.best() == before.best());
                        assert(st.deferred(nodes) == before.deferred(nodes));
                    }
                },
            }
        }
        st.pending.enabled = enabled;
        proof {
            assert(st.pending@ =~= goal.pending);
            assert(st.pending@.len() == 0);
            assert(st.deferred(nodes) =~= Set::<int>::empty());
            if go {
                assert(st.done@ =~= all);
                assert(st.best().nearest(query@, lanes, far, all));
            }
        }
    }
}

} // verus!
