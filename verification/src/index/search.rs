//! The pieces of the search: keeping the nearest candidates, and setting aside subtrees that cannot
//! change the verdict.

use vstd::prelude::*;

use crate::index::knn;
use crate::index::knn::FAR;
use crate::index::sort;
use crate::K;

verus! {

/// The most subtrees that can be set aside.
pub const DEFER_STACK_CAPACITY: usize = 4096;

/// Tells whether one distance and reference index comes before another.
pub fn candidate_before(dist: i64, ref_index: u32, other_dist: i64, other_index: u32) -> (r: bool)
    ensures
        r == knn::before(dist, ref_index, other_dist, other_index),
{
    dist < other_dist || (dist == other_dist && ref_index < other_index)
}

/// Sorts numbered partitions by their distance, those with the same one in the order in which they
/// stood.
pub fn sort_partition_entries(entries: &mut Vec<(i64, usize)>)
    ensures
        sort::sorted(final(entries)@),
        final(entries)@.to_multiset() == old(entries)@.to_multiset(),
        final(entries)@.len() == old(entries)@.len(),
        sort::ties_stay(old(entries)@, final(entries)@),
{
    let mut unsorted: Vec<(i64, usize)> = Vec::new();
    std::mem::swap(&mut unsorted, entries);
    *entries = sort::sort_entries(unsorted);
}

/// Puts `x` at position `p` and drops the last element.
pub(crate) fn squeeze_in<T: Copy>(s: &mut [T; K], p: usize, x: T)
    requires
        p < K,
    ensures
        final(s)@ == knn::squeezed(old(s)@, p as int, x),
{
    let mut i: usize = K - 1;
    while i > p
        invariant
            p <= i < K,
            s@.len() == K,
            old(s)@.len() == K,
            forall|j: int| 0 <= j <= i ==> s@[j] == old(s)@[j],
            forall|j: int| i < j < K ==> s@[j] == old(s)@[j - 1],
        decreases i,
    {
        let moved: T = s[i - 1];
        s[i] = moved;
        i = i - 1;
    }
    s[p] = x;
    assert(s@ =~= knn::squeezed(old(s)@, p as int, x));
}

/// The place of a candidate among those that are kept.
fn find_rank(dist: i64, ref_index: u32, best_dists: &[i64; K], best_indices: &[u32; K]) -> (r: usize)
    ensures
        r == knn::rank(dist, ref_index, best_dists@, best_indices@, (K - 1) as nat),
        r < K,
{
    let mut pos: usize = K - 1;
    while pos > 0 && candidate_before(dist, ref_index, best_dists[pos - 1], best_indices[pos - 1])
        invariant
            pos < K,
            knn::rank(dist, ref_index, best_dists@, best_indices@, pos as nat) == knn::rank(
                dist,
                ref_index,
                best_dists@,
                best_indices@,
                (K - 1) as nat,
            ),
        decreases pos,
    {
        pos = pos - 1;
    }
    pos
}

/// Keeps a candidate, with the key of its partition, if it is near enough.
pub fn insert_best(
    dist: i64,
    label: u8,
    ref_index: u32,
    partition_key: u32,
    best_dists: &mut [i64; K],
    best_labels: &mut [u8; K],
    best_indices: &mut [u32; K],
    part_keys: &mut [u32; K],
)
    ensures
        ({
            let p = knn::rank(
                dist,
                ref_index,
                old(best_dists)@,
                old(best_indices)@,
                (K - 1) as nat,
            ) as int;
            if knn::before(dist, ref_index, old(best_dists)@[K - 1], old(best_indices)@[K - 1]) {
                &&& final(best_dists)@ == knn::squeezed(old(best_dists)@, p, dist)
                &&& final(best_labels)@ == knn::squeezed(old(best_labels)@, p, label)
                &&& final(best_indices)@ == knn::squeezed(old(best_indices)@, p, ref_index)
                &&& final(part_keys)@ == knn::squeezed(old(part_keys)@, p, partition_key)
            } else {
                &&& final(best_dists)@ == old(best_dists)@
                &&& final(best_labels)@ == old(best_labels)@
                &&& final(best_indices)@ == old(best_indices)@
                &&& final(part_keys)@ == old(part_keys)@
            }
        }),
{
    if !candidate_before(dist, ref_index, best_dists[K - 1], best_indices[K - 1]) {
        return;
    }
    let pos: usize = find_rank(dist, ref_index, best_dists, best_indices);
    squeeze_in(best_dists, pos, dist);
    squeeze_in(best_labels, pos, label);
    squeeze_in(best_indices, pos, ref_index);
    squeeze_in(part_keys, pos, partition_key);
}

/// Keeps a candidate if it is near enough.
pub fn insert_best_fast(
    dist: i64,
    label: u8,
    ref_index: u32,
    best_dists: &mut [i64; K],
    best_labels: &mut [u8; K],
    best_indices: &mut [u32; K],
)
    ensures
        ({
            let p = knn::rank(
                dist,
                ref_index,
                old(best_dists)@,
                old(best_indices)@,
                (K - 1) as nat,
            ) as int;
            if knn::before(dist, ref_index, old(best_dists)@[K - 1], old(best_indices)@[K - 1]) {
                &&& final(best_dists)@ == knn::squeezed(old(best_dists)@, p, dist)
                &&& final(best_labels)@ == knn::squeezed(old(best_labels)@, p, label)
                &&& final(best_indices)@ == knn::squeezed(old(best_indices)@, p, ref_index)
            } else {
                &&& final(best_dists)@ == old(best_dists)@
                &&& final(best_labels)@ == old(best_labels)@
                &&& final(best_indices)@ == old(best_indices)@
            }
        }),
{
    if !candidate_before(dist, ref_index, best_dists[K - 1], best_indices[K - 1]) {
        return;
    }
    let pos: usize = find_rank(dist, ref_index, best_dists, best_indices);
    squeeze_in(best_dists, pos, dist);
    squeeze_in(best_labels, pos, label);
    squeeze_in(best_indices, pos, ref_index);
}

/// The sum of the candidates' labels.
pub open spec fn label_sum(labels: Seq<u8>) -> int {
    labels[0] + labels[1] + labels[2] + labels[3] + labels[4]
}

/// The label on which all candidates agree, if there are `K` of them and they do.
pub open spec fn consensus(dists: Seq<i64>, labels: Seq<u8>) -> Option<u8> {
    if dists[K - 1] == FAR {
        None
    } else if label_sum(labels) == 0 {
        Some(0)
    } else if label_sum(labels) == K {
        Some(1)
    } else {
        None
    }
}

/// The sum of the candidates' labels.
pub fn sum_labels(best_labels: &[u8; K]) -> (r: u32)
    ensures
        r == label_sum(best_labels@),
{
    best_labels[0] as u32 + best_labels[1] as u32 + best_labels[2] as u32 + best_labels[3] as u32
        + best_labels[4] as u32
}

/// The label on which all candidates agree.
pub fn consensus_label(best_dists: &[i64; K], best_labels: &[u8; K]) -> (r: Option<u8>)
    ensures
        r == consensus(best_dists@, best_labels@),
        r matches Some(label) ==> label <= 1,
{
    if best_dists[K - 1] == FAR {
        return None;
    }
    let sum: u32 = sum_labels(best_labels);
    if sum == 0 {
        Some(0)
    } else if sum == K as u32 {
        Some(1)
    } else {
        None
    }
}

/// The subtree holds references, and none of them with the label other than `label`.
pub open spec fn only_class(class_bits: u8, label: u8) -> bool {
    class_bits != 0 && class_bits & (if label == 0 {
        2u8
    } else {
        1u8
    }) == 0
}

/// Subtrees that were set aside while all candidates agreed on a label, because they hold no
/// reference with the other one.
pub struct PendingSubtrees {
    pub enabled: bool,
    pub label: Option<u8>,
    pub roots: [usize; DEFER_STACK_CAPACITY],
    pub bounds: [i64; DEFER_STACK_CAPACITY],
    pub len: usize,
}

impl View for PendingSubtrees {
    type V = Seq<(usize, i64)>;

    open spec fn view(&self) -> Seq<(usize, i64)> {
        Seq::new(self.len as nat, |i: int| (self.roots@[i], self.bounds@[i]))
    }
}

impl PendingSubtrees {
    pub open spec fn wf(self) -> bool {
        &&& self.len <= DEFER_STACK_CAPACITY
        &&& self.len > 0 ==> self.label is Some
        &&& self.label matches Some(label) ==> label <= 1
    }

    /// A subtree can be set aside now.
    pub open spec fn deferrable(self, dists: Seq<i64>, labels: Seq<u8>, class_bits: u8) -> bool {
        &&& self.enabled
        &&& self.len < DEFER_STACK_CAPACITY
        &&& consensus(dists, labels) is Some
        &&& only_class(class_bits, consensus(dists, labels).unwrap())
    }

    /// Nothing set aside.
    pub fn new(enabled: bool) -> (r: Self)
        ensures
            r.wf(),
            r.enabled == enabled,
            r.label is None,
            r@ == Seq::<(usize, i64)>::empty(),
    {
        let r = PendingSubtrees {
            enabled,
            label: None,
            roots: [0usize; DEFER_STACK_CAPACITY],
            bounds: [0i64; DEFER_STACK_CAPACITY],
            len: 0,
        };
        assert(r@ =~= Seq::<(usize, i64)>::empty());
        r
    }

    /// Sets a subtree aside if all candidates agree on a label, the subtree holds no other one, and
    /// whatever was set aside before was so for the same label; tells whether it did.
    pub fn try_defer(
        &mut self,
        node_idx: usize,
        bound: i64,
        best_dists: &[i64; K],
        best_labels: &[u8; K],
        node_class_bits: u8,
    ) -> (r: bool)
        requires
            old(self).wf(),
        ensures
            final(self).wf(),
            final(self).enabled == old(self).enabled,
            ({
                let label = consensus(best_dists@, best_labels@);
                if old(self).deferrable(best_dists@, best_labels@, node_class_bits) {
                    &&& r == (old(self).label is None || old(self).label == label)
                    &&& final(self).label == (if old(self).label is None {
                        label
                    } else {
                        old(self).label
                    })
                    &&& final(self)@ == (if r {
                        old(self)@.push((node_idx, bound))
                    } else {
                        old(self)@
                    })
                } else {
                    &&& !r
                    &&& final(self).label == old(self).label
                    &&& final(self)@ == old(self)@
                }
            }),
    {
        if !self.enabled || self.len >= DEFER_STACK_CAPACITY {
            return false;
        }
        let label: u8 = match consensus_label(best_dists, best_labels) {
            Some(label) => label,
            None => return false,
        };
        let needed: u8 = if label == 0 {
            2
        } else {
            1
        };
        if node_class_bits == 0 || (node_class_bits & needed) != 0 {
            return false;
        }
        match self.label {
            Some(set) => {
                if set != label {
                    return false;
                }
            },
            None => {
                self.label = Some(label);
            },
        }
        self.roots[self.len] = node_idx;
        self.bounds[self.len] = bound;
        self.len = self.len + 1;
        assert(self@ =~= old(self)@.push((node_idx, bound)));
        true
    }

    /// Tells whether the candidates no longer agree on the label for which subtrees were set aside.
    pub fn should_replay(&self, best_dists: &[i64; K], best_labels: &[u8; K]) -> (r: bool)
        ensures
            r == (self@.len() > 0 && consensus(best_dists@, best_labels@) != self.label),
    {
        if self.len == 0 {
            return false;
        }
        match (consensus_label(best_dists, best_labels), self.label) {
            (Some(a), Some(b)) => a != b,
            (None, None) => false,
            _ => true,
        }
    }

    /// Takes back the subtree that was set aside last.
    pub fn pop(&mut self) -> (r: Option<(usize, i64)>)
        requires
            old(self).wf(),
        ensures
            final(self).wf(),
            final(self).enabled == old(self).enabled,
            old(self)@.len() == 0 ==> r is None && final(self).label is None && final(self)@ == old(
                self,
            )@,
            old(self)@.len() > 0 ==> r == Some(old(self)@.last()) && final(self).label == old(
                self,
            ).label && final(self)@ == old(self)@.drop_last(),
    {
        if self.len == 0 {
            self.label = None;
            assert(self@ =~= old(self)@);
            return None;
        }
        self.len = self.len - 1;
        assert(self@ =~= old(self)@.drop_last());
        Some((self.roots[self.len], self.bounds[self.len]))
    }
}

} // verus!
