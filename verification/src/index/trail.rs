//! What a search does, step by step.

use vstd::prelude::*;

use crate::index::knn;
use crate::index::knn::Lane;
use crate::index::knn::Neighbours;
use crate::index::search;
use crate::index::search::DEFER_STACK_CAPACITY;
use crate::index::tree;
use crate::index::tree::Node;
use crate::index::tree::TREE_STACK_CAPACITY;

verus! {

/// How far a search has come: the candidates, the nodes at which it entered a tree, the largest
/// distance among the candidates once each of these trees was done, the nodes that it visited, and
/// the subtrees that it set aside, with the label for which it did; `enabled` says whether it may.
#[verifier::ext_equal]
pub struct Trail {
    pub found: Neighbours,
    pub entered: Seq<int>,
    pub limits: Seq<int>,
    pub visited: Seq<int>,
    pub enabled: bool,
    pub label: Option<u8>,
    pub pending: Seq<(usize, i64)>,
}

impl Trail {
    /// A search that has not begun.
    pub open spec fn begun(enabled: bool) -> Trail {
        Trail {
            found: Neighbours::none(),
            entered: Seq::empty(),
            limits: Seq::empty(),
            visited: Seq::empty(),
            enabled,
            label: None,
            pending: Seq::empty(),
        }
    }

    /// The label on which all candidates agree.
    pub open spec fn agreed(self) -> Option<u8> {
        search::consensus(self.found.dists, self.found.labels)
    }

    /// A subtree with these class bits is set aside now: all candidates agree on a label, the subtree
    /// holds no other one, and whatever was set aside before was so for the same label.
    pub open spec fn sets_aside(self, class_bits: u8) -> bool {
        &&& self.enabled
        &&& self.pending.len() < DEFER_STACK_CAPACITY
        &&& self.agreed() is Some
        &&& search::only_class(class_bits, self.agreed().unwrap())
        &&& self.label is None || self.label == self.agreed()
    }
}

/// The candidates once `count` references from `first` on have been looked at, one after the other.
pub open spec fn scanned(
    lanes: Seq<Lane>,
    query: Seq<i16>,
    key: u32,
    n: Neighbours,
    first: int,
    count: int,
) -> Neighbours
    decreases count,
{
    if count <= 0 {
        n
    } else {
        let place = first + count - 1;
        scanned(lanes, query, key, n, first, count - 1).with(
            knn::distance(query, lanes[place].vector@) as i64,
            lanes[place].label,
            lanes[place].ref_index,
            key,
            place,
        )
    }
}

/// The subtrees of node `i` with the distances of their boxes, the nearer one first.
pub open spec fn by_distance(nodes: Seq<Node>, query: Seq<i16>, i: int) -> (
    (int, int),
    (int, int),
) {
    let l = nodes[i].left as int;
    let r = nodes[i].right as int;
    let lb = tree::node_distance(nodes, query, l);
    let rb = tree::node_distance(nodes, query, r);
    if lb <= rb {
        ((l, lb), (r, rb))
    } else {
        ((r, rb), (l, lb))
    }
}

/// The search comes to node `i`, whose references reach no nearer than `bound`, while it remembers
/// `held` other subtrees: it passes over a node that is too far away, looks at a leaf, sets a subtree
/// aside, or searches the nearer subtree and then, if it could remember it and it was near enough,
/// the other one.
pub open spec fn walk_to(
    nodes: Seq<Node>,
    lanes: Seq<Lane>,
    query: Seq<i16>,
    key: u32,
    i: int,
    bound: int,
    t: Trail,
    held: int,
    levels: nat,
) -> Trail
    decreases levels,
{
    if levels == 0 || bound > t.found.limit() {
        t
    } else {
        let u = Trail { visited: t.visited.push(i), ..t };
        let node = nodes[i];
        if node.is_leaf() {
            Trail {
                found: scanned(lanes, query, key, t.found, node.start * 8, node.len as int),
                ..u
            }
        } else if t.sets_aside(node.class_bits) {
            Trail {
                label: t.agreed(),
                pending: t.pending.push((i as usize, bound as i64)),
                ..u
            }
        } else {
            let (near, far) = by_distance(nodes, query, i);
            let fewer = (levels - 1) as nat;
            if far.1 <= t.found.limit() && held < TREE_STACK_CAPACITY {
                let v = walk_to(nodes, lanes, query, key, near.0, near.1, u, held + 1, fewer);
                walk_to(nodes, lanes, query, key, far.0, far.1, v, held, fewer)
            } else {
                walk_to(nodes, lanes, query, key, near.0, near.1, u, held, fewer)
            }
        }
    }
}

/// The search comes to the subtrees on a stack, the last one first.
#[verifier::opaque]
pub open spec fn unwound(
    nodes: Seq<Node>,
    lanes: Seq<Lane>,
    query: Seq<i16>,
    key: u32,
    stack: Seq<(usize, i64)>,
    t: Trail,
) -> Trail
    decreases stack.len(),
{
    if stack.len() == 0 {
        t
    } else {
        let next = stack.last();
        unwound(
            nodes,
            lanes,
            query,
            key,
            stack.drop_last(),
            walk_to(
                nodes,
                lanes,
                query,
                key,
                next.0 as int,
                next.1 as int,
                t,
                stack.len() - 1,
                nodes.len(),
            ),
        )
    }
}

/// The search enters the tree at `root`, whose references reach no nearer than `bound`.
pub open spec fn entered_at(
    nodes: Seq<Node>,
    lanes: Seq<Lane>,
    query: Seq<i16>,
    key: u32,
    root: int,
    bound: int,
    t: Trail,
) -> Trail {
    let u = walk_to(
        nodes,
        lanes,
        query,
        key,
        root,
        bound,
        Trail { entered: t.entered.push(root), ..t },
        0,
        nodes.len(),
    );
    Trail { limits: u.limits.push(u.found.limit()), ..u }
}

/// The search takes back the subtrees that it had set aside, the last one first.
pub open spec fn retraced(
    nodes: Seq<Node>,
    lanes: Seq<Lane>,
    query: Seq<i16>,
    pending: Seq<(usize, i64)>,
    t: Trail,
) -> Trail
    decreases pending.len(),
{
    if pending.len() == 0 {
        t
    } else {
        let (root, bound) = pending.last();
        let rest = pending.drop_last();
        let u = Trail { pending: rest, ..t };
        retraced(
            nodes,
            lanes,
            query,
            rest,
            if bound > t.found.limit() {
                u
            } else {
                entered_at(nodes, lanes, query, u32::MAX, root as int, bound as int, u)
            },
        )
    }
}

/// The search is over but for the subtrees that it had set aside: it takes them back if the candidates
/// no longer agree on the label for which it did.
pub open spec fn replayed(
    nodes: Seq<Node>,
    lanes: Seq<Lane>,
    query: Seq<i16>,
    t: Trail,
) -> Trail {
    if t.pending.len() > 0 && t.agreed() != t.label {
        let u = retraced(nodes, lanes, query, t.pending, Trail { enabled: false, ..t });
        Trail { enabled: t.enabled, label: None, ..u }
    } else {
        t
    }
}

/// More levels than a tree has make no difference.
proof fn lemma_walk_levels(
    nodes: Seq<Node>,
    lanes: Seq<Lane>,
    query: Seq<i16>,
    key: u32,
    i: int,
    bound: int,
    t: Trail,
    held: int,
    levels: nat,
    more: nat,
)
    requires
        tree::stands(nodes, lanes, i, levels),
        levels <= more,
    ensures
        walk_to(nodes, lanes, query, key, i, bound, t, held, levels) == walk_to(
            nodes,
            lanes,
            query,
            key,
            i,
            bound,
            t,
            held,
            more,
        ),
    decreases levels,
{
    if bound <= t.found.limit() && !nodes[i].is_leaf() && !t.sets_aside(nodes[i].class_bits) {
        let (near, far) = by_distance(nodes, query, i);
        let u = Trail { visited: t.visited.push(i), ..t };
        let fewer = (levels - 1) as nat;
        let less = (more - 1) as nat;
        lemma_walk_levels(nodes, lanes, query, key, near.0, near.1, u, held, fewer, less);
        lemma_walk_levels(nodes, lanes, query, key, near.0, near.1, u, held + 1, fewer, less);
        let v = walk_to(nodes, lanes, query, key, near.0, near.1, u, held + 1, fewer);
        lemma_walk_levels(nodes, lanes, query, key, far.0, far.1, v, held, fewer, less);
    }
}

pub proof fn lemma_unwound_none(
    nodes: Seq<Node>,
    lanes: Seq<Lane>,
    query: Seq<i16>,
    key: u32,
    t: Trail,
)
    ensures
        unwound(nodes, lanes, query, key, Seq::empty(), t) == t,
{
    reveal_with_fuel(unwound, 1);
}

pub proof fn lemma_unwound_one(
    nodes: Seq<Node>,
    lanes: Seq<Lane>,
    query: Seq<i16>,
    key: u32,
    next: (usize, i64),
    t: Trail,
)
    ensures
        unwound(nodes, lanes, query, key, Seq::empty().push(next), t) == walk_to(
            nodes,
            lanes,
            query,
            key,
            next.0 as int,
            next.1 as int,
            t,
            0,
            nodes.len(),
        ),
{
    reveal_with_fuel(unwound, 2);
    let one = Seq::<(usize, i64)>::empty().push(next);
    assert(one.drop_last() =~= Seq::<(usize, i64)>::empty());
}

/// A node that is too far away is passed over.
pub proof fn lemma_unwound_far(
    nodes: Seq<Node>,
    lanes: Seq<Lane>,
    query: Seq<i16>,
    key: u32,
    stack: Seq<(usize, i64)>,
    next: (usize, i64),
    t: Trail,
)
    requires
        next.1 > t.found.limit(),
    ensures
        unwound(nodes, lanes, query, key, stack.push(next), t) == unwound(
            nodes,
            lanes,
            query,
            key,
            stack,
            t,
        ),
{
    reveal_with_fuel(unwound, 2);
    assert(stack.push(next).drop_last() =~= stack);
}

/// A leaf is looked at.
pub proof fn lemma_unwound_leaf(
    nodes: Seq<Node>,
    lanes: Seq<Lane>,
    query: Seq<i16>,
    key: u32,
    stack: Seq<(usize, i64)>,
    next: (usize, i64),
    t: Trail,
)
    requires
        nodes.len() > 0,
        nodes[next.0 as int].is_leaf(),
        next.1 <= t.found.limit(),
    ensures
        ({
            let node = nodes[next.0 as int];
            unwound(nodes, lanes, query, key, stack.push(next), t) == unwound(
                nodes,
                lanes,
                query,
                key,
                stack,
                Trail {
                    visited: t.visited.push(next.0 as int),
                    found: scanned(lanes, query, key, t.found, node.start * 8, node.len as int),
                    ..t
                },
            )
        }),
{
    reveal_with_fuel(unwound, 2);
    assert(stack.push(next).drop_last() =~= stack);
}

/// A subtree is set aside.
pub proof fn lemma_unwound_aside(
    nodes: Seq<Node>,
    lanes: Seq<Lane>,
    query: Seq<i16>,
    key: u32,
    stack: Seq<(usize, i64)>,
    next: (usize, i64),
    t: Trail,
)
    requires
        nodes.len() > 0,
        !nodes[next.0 as int].is_leaf(),
        next.1 <= t.found.limit(),
        t.sets_aside(nodes[next.0 as int].class_bits),
    ensures
        unwound(nodes, lanes, query, key, stack.push(next), t) == unwound(
            nodes,
            lanes,
            query,
            key,
            stack,
            Trail {
                visited: t.visited.push(next.0 as int),
                label: t.agreed(),
                pending: t.pending.push(next),
                ..t
            },
        ),
{
    reveal_with_fuel(unwound, 2);
    assert(stack.push(next).drop_last() =~= stack);
}

/// The subtrees of a node are searched.
pub proof fn lemma_unwound_inner(
    nodes: Seq<Node>,
    lanes: Seq<Lane>,
    query: Seq<i16>,
    key: u32,
    stack: Seq<(usize, i64)>,
    next: (usize, i64),
    near: (usize, i64),
    far: (usize, i64),
    t: Trail,
)
    requires
        tree::has_tree(nodes, lanes, next.0 as int),
        !nodes[next.0 as int].is_leaf(),
        next.1 <= t.found.limit(),
        !t.sets_aside(nodes[next.0 as int].class_bits),
        by_distance(nodes, query, next.0 as int) == (
            (near.0 as int, near.1 as int),
            (far.0 as int, far.1 as int),
        ),
    ensures
        ({
            let u = Trail { visited: t.visited.push(next.0 as int), ..t };
            unwound(nodes, lanes, query, key, stack.push(next), t) == unwound(
                nodes,
                lanes,
                query,
                key,
                if far.1 <= t.found.limit() && stack.len() < TREE_STACK_CAPACITY {
                    stack.push(far).push(near)
                } else {
                    stack.push(near)
                },
                u,
            )
        }),
{
    reveal_with_fuel(unwound, 3);
    let u = Trail { visited: t.visited.push(next.0 as int), ..t };
    let held = stack.len() as int;
    let all = nodes.len();
    let fewer = (all - 1) as nat;
    assert(stack.push(next).drop_last() =~= stack);
    assert(stack.push(near).drop_last() =~= stack);
    assert(stack.push(far).drop_last() =~= stack);
    assert(stack.push(far).push(near).drop_last() =~= stack.push(far));
    let (a, x) = (near.0 as int, near.1 as int);
    let (b, y) = (far.0 as int, far.1 as int);
    lemma_walk_levels(nodes, lanes, query, key, a, x, u, held, fewer, all);
    lemma_walk_levels(nodes, lanes, query, key, a, x, u, held + 1, fewer, all);
    let v = walk_to(nodes, lanes, query, key, a, x, u, held + 1, fewer);
    lemma_walk_levels(nodes, lanes, query, key, b, y, v, held, fewer, all);
}

/// Inside a tree a search enters no other one.
proof fn lemma_walk_keeps(
    nodes: Seq<Node>,
    lanes: Seq<Lane>,
    query: Seq<i16>,
    key: u32,
    i: int,
    bound: int,
    t: Trail,
    held: int,
    levels: nat,
)
    ensures
        ({
            let u = walk_to(nodes, lanes, query, key, i, bound, t, held, levels);
            u.entered == t.entered && u.limits == t.limits
        }),
    decreases levels,
{
    if levels > 0 && bound <= t.found.limit() && !nodes[i].is_leaf() && !t.sets_aside(
        nodes[i].class_bits,
    ) {
        let (near, far) = by_distance(nodes, query, i);
        let u = Trail { visited: t.visited.push(i), ..t };
        let fewer = (levels - 1) as nat;
        lemma_walk_keeps(nodes, lanes, query, key, near.0, near.1, u, held, fewer);
        lemma_walk_keeps(nodes, lanes, query, key, near.0, near.1, u, held + 1, fewer);
        let v = walk_to(nodes, lanes, query, key, near.0, near.1, u, held + 1, fewer);
        lemma_walk_keeps(nodes, lanes, query, key, far.0, far.1, v, held, fewer);
    }
}

/// A search that enters a tree notes it, and how far away the candidates are once it is done.
pub proof fn lemma_entered_at(
    nodes: Seq<Node>,
    lanes: Seq<Lane>,
    query: Seq<i16>,
    key: u32,
    root: int,
    bound: int,
    t: Trail,
)
    ensures
        ({
            let u = entered_at(nodes, lanes, query, key, root, bound, t);
            &&& u.entered == t.entered.push(root)
            &&& u.limits == t.limits.push(u.found.limit())
        }),
{
    lemma_walk_keeps(
        nodes,
        lanes,
        query,
        key,
        root,
        bound,
        Trail { entered: t.entered.push(root), ..t },
        0,
        nodes.len(),
    );
}

} // verus!
