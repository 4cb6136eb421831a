//! Counting the fraudulent references among a query's nearest neighbours.

use vstd::prelude::*;

use crate::index::knn;
use crate::index::knn::Neighbours;
use crate::index::layout;
use crate::index::partition_set;
use crate::index::partition_set::PartitionSet;
use crate::index::route;
use crate::index::search;
use crate::index::specialist;
use crate::index::specialist::SearchMode;
use crate::index::specialist::SpecialistIndex;
use crate::index::specialist::KEY_LOOKUP_SIZE;
use crate::index::tree;
use crate::index::tree::Search;
use crate::index::tree::SearchStats;
use crate::QueryVector;
use crate::K;

verus! {

/// Partitions with the key may be searched.
pub open spec fn permitted(allowed: Option<Set<u32>>, key: u32) -> bool {
    match allowed {
        Some(set) => set.contains(key),
        None => true,
    }
}

/// The keys of a set, where there is one.
pub open spec fn keys_of(allowed: Option<&PartitionSet>) -> Option<Set<u32>> {
    match allowed {
        Some(set) => Some(set@),
        None => None,
    }
}

impl SpecialistIndex {
    /// Partition `i` takes part in a search: its key is permitted, and, unless all partitions are
    /// searched, it is the one that is found by its key.
    pub open spec fn takes_part(self, allowed: Option<Set<u32>>, i: int) -> bool {
        &&& specialist::can_be_searched(self.contents.partitions@, self.settings.mode, i)
        &&& permitted(allowed, self.contents.partitions@[i].key)
    }

    /// The root of partition `i`.
    pub open spec fn root(self, i: int) -> int {
        self.contents.partitions@[i].root as int
    }

    /// The nodes of partition `i`.
    pub open spec fn tribe(self, i: int) -> Set<int> {
        tree::family(self.contents.forest.nodes@, self.root(i))
    }

    /// The nodes of the partitions that take part in a search.
    pub open spec fn kin(self, allowed: Option<Set<u32>>) -> Set<int> {
        Set::new(
            |j: int|
                exists|i: int|
                    self.takes_part(allowed, i) && #[trigger] self.tribe(i).contains(j),
        )
    }

    /// How far away a search may take each reference to be: its distance, or that of a box around it
    /// in the partitions that take part, where this is larger.
    pub open spec fn reach(self, query: Seq<i16>, allowed: Option<Set<u32>>) -> Seq<int> {
        tree::reach(
            self.contents.forest.nodes@,
            self.contents.forest.lanes@,
            query,
            self.kin(allowed),
        )
    }

    /// The distance of a query to the box of partition `i`.
    pub open spec fn partition_distance(self, query: Seq<i16>, i: int) -> int {
        knn::box_distance(
            query,
            self.contents.partitions@[i].min@,
            self.contents.partitions@[i].max@,
        )
    }

    /// The references of partition `i`.
    pub open spec fn below(self, i: int) -> Set<int> {
        tree::covers(self.contents.forest.nodes@, self.contents.partitions@[i].root as int)
    }

    /// The references of these partitions.
    pub open spec fn places_in(self, seen: Set<int>) -> Set<int> {
        Set::new(|p: int| exists|i: int| seen.contains(i) && #[trigger] self.below(i).contains(p))
    }

    /// The partitions that take part in a search.
    pub open spec fn participants(self, allowed: Option<Set<u32>>) -> Set<int> {
        Set::new(|i: int| self.takes_part(allowed, i))
    }

    /// The references among which a search looks.
    pub open spec fn scope(self, allowed: Option<Set<u32>>) -> Set<int> {
        self.places_in(self.participants(allowed))
    }

    /// The references among which a search looks, with the keys of their partitions.
    pub open spec fn keyed(self, allowed: Option<Set<u32>>) -> Set<(u32, int)> {
        Set::new(
            |kp: (u32, int)|
                exists|i: int|
                    {
                        &&& self.takes_part(allowed, i)
                        &&& self.contents.partitions@[i].key == kp.0
                        &&& #[trigger] self.below(i).contains(kp.1)
                    },
        )
    }

    /// A search finds what is nearest: the trees of the partitions that take part are orderly, each
    /// such partition has its tree's box, and no reference and no node is in two of them.
    pub open spec fn exact_for(self, allowed: Option<Set<u32>>) -> bool {
        let nodes = self.contents.forest.nodes@;
        let parts = self.contents.partitions@;
        &&& forall|i: int| #[trigger]
            self.takes_part(allowed, i) ==> {
                &&& tree::orderly(nodes, self.contents.forest.lanes@, self.root(i))
                &&& parts[i].min == nodes[self.root(i)].min
                &&& parts[i].max == nodes[self.root(i)].max
            }
        &&& forall|i: int, j: int| #[trigger]
            self.takes_part(allowed, i) && #[trigger] self.takes_part(allowed, j) && i != j ==> {
                &&& self.below(i).disjoint(self.below(j))
                &&& self.tribe(i).disjoint(self.tribe(j))
            }
    }

    /// The class bits of the trees that take part say which labels their references have, and there
    /// are only two.
    pub open spec fn classed(self, allowed: Option<Set<u32>>) -> bool {
        tree::classes_hold(
            self.contents.forest.nodes@,
            self.contents.forest.lanes@,
            self.kin(allowed),
        )
    }

    /// The search is exact so far, and has accounted for these partitions or set parts aside.
    spec fn progress(
        self,
        st: Search,
        query: Seq<i16>,
        allowed: Option<Set<u32>>,
        seen: Set<int>,
    ) -> bool {
        &&& st.exact_so_far(
            self.contents.forest.nodes@,
            self.contents.forest.lanes@,
            query,
            self.kin(allowed),
        )
        &&& st.done@.union(st.deferred(self.contents.forest.nodes@)) == self.places_in(seen)
    }

    /// The node is the root of one of these partitions.
    spec fn is_root_of(self, seen: Set<int>, root: int) -> bool {
        exists|i: int| seen.contains(i) && #[trigger] self.root(i) == root
    }

    /// The node is one of these partitions'.
    spec fn is_node_of(self, seen: Set<int>, v: int) -> bool {
        exists|i: int| seen.contains(i) && #[trigger] self.tribe(i).contains(v)
    }

    /// What a search that sets nothing aside has visited, with these partitions behind it: it entered
    /// each of them or its box is too far away.
    #[verifier::opaque]
    spec fn walk_so_far(
        self,
        st: Search,
        query: Seq<i16>,
        allowed: Option<Set<u32>>,
        seen: Set<int>,
    ) -> bool {
        &&& !st.pending.enabled
        &&& seen.subset_of(self.participants(allowed))
        &&& st.stats.partitions_visited == st.entered@.len()
        &&& forall|k: int|
            0 <= k < st.entered@.len() ==> self.is_root_of(seen, #[trigger] st.entered@[k])
                && st.visited@.contains(st.entered@[k])
        &&& forall|i: int| #[trigger]
            seen.contains(i) ==> st.entered@.contains(self.root(i)) || self.partition_distance(
                query,
                i,
            ) >= st.best().limit()
        &&& self.exact_for(allowed) ==> {
            &&& st.visited@.no_duplicates()
            &&& st.entered@.no_duplicates()
            &&& tree::closed(
                self.contents.forest.nodes@,
                query,
                st.visited@,
                st.best().limit(),
            )
            &&& forall|v: int| #[trigger] st.visited@.contains(v) ==> self.is_node_of(seen, v)
        }
    }

    /// All partitions that take part are behind the search, or it ended early.
    spec fn walk_is_over(self, st: Search, query: Seq<i16>, allowed: Option<Set<u32>>) -> bool {
        exists|seen: Set<int>|
            #[trigger] self.walk_so_far(st, query, allowed, seen) && self.is_enough(
                st.best(),
                allowed,
                seen,
            )
    }

    /// The tree of a partition that takes part.
    proof fn lemma_part_tree(self, allowed: Option<Set<u32>>, i: int)
        requires
            self.wf(),
            self.takes_part(allowed, i),
        ensures
            tree::has_tree(
                self.contents.forest.nodes@,
                self.contents.forest.lanes@,
                self.root(i),
            ),
            0 <= self.root(i) < self.contents.forest.nodes@.len(),
            self.tribe(i).contains(self.root(i)),
            self.tribe(i).subset_of(self.kin(allowed)),
    {
        tree::lemma_tree(
            self.contents.forest.nodes@,
            self.contents.forest.lanes@,
            self.root(i),
        );
        assert forall|j: int| self.tribe(i).contains(j) implies self.kin(allowed).contains(j) by {}
    }

    /// A search enters another partition.
    proof fn lemma_walk_on(
        self,
        before: Search,
        after: Search,
        query: Seq<i16>,
        allowed: Option<Set<u32>>,
        seen: Set<int>,
        idx: int,
        bound: i64,
    )
        requires
            self.wf(),
            self.takes_part(allowed, idx),
            self.walk_so_far(before, query, allowed, seen),
            !seen.contains(idx),
            bound <= before.best().limit(),
            before.stats.partitions_visited < 0x8000_0000,
            after.stats.partitions_visited == (before.stats.partitions_visited + 1)
                % 0x1_0000_0000,
            after.pending.enabled == before.pending.enabled,
            after.best().limit() <= before.best().limit(),
            after.entered@ == before.entered@.push(self.root(idx)),
            0 <= self.root(idx) <= usize::MAX,
            tree::walked(
                before,
                after,
                self.contents.forest.nodes@,
                self.contents.forest.lanes@,
                query,
                self.root(idx) as usize,
                bound,
            ),
        ensures
            self.walk_so_far(after, query, allowed, seen.insert(idx)),
    {
        reveal(SpecialistIndex::walk_so_far);
        let wider = seen.insert(idx);
        let root = self.root(idx);
        self.lemma_part_tree(allowed, idx);
        assert(self.participants(allowed).contains(idx));
        let (old_roots, roots) = (before.entered@, after.entered@);
        assert(roots[old_roots.len() as int] == root);
        assert forall|k: int| 0 <= k < roots.len() implies self.is_root_of(
            wider,
            #[trigger] roots[k],
        ) && after.visited@.contains(roots[k]) by {
            if k < old_roots.len() {
                assert(roots[k] == old_roots[k]);
                let i = choose|i: int| seen.contains(i) && #[trigger] self.root(i) == old_roots[k];
                assert(wider.contains(i));
            } else {
                assert(wider.contains(idx));
            }
        }
        assert forall|i: int| #[trigger] wider.contains(i) implies roots.contains(self.root(i))
            || self.partition_distance(query, i) >= after.best().limit() by {
            if i != idx {
                assert(seen.contains(i));
                if old_roots.contains(self.root(i)) {
                    let k = choose|k: int| 0 <= k < old_roots.len() && old_roots[k] == self.root(i);
                    assert(roots[k] == self.root(i));
                }
            }
        }
        if self.exact_for(allowed) {
            assert forall|v: int| #[trigger] self.tribe(idx).contains(v) implies !before.visited@.contains(
                v,
            ) by {
                if before.visited@.contains(v) {
                    let i = choose|i: int| seen.contains(i) && #[trigger] self.tribe(i).contains(v);
                    assert(self.participants(allowed).contains(i));
                    assert(self.takes_part(allowed, i));
                    assert(self.tribe(i).disjoint(self.tribe(idx)));
                }
            }
            assert forall|v: int| #[trigger] after.visited@.contains(v) implies self.is_node_of(
                wider,
                v,
            ) by {
                if before.visited@.contains(v) {
                    let i = choose|i: int| seen.contains(i) && #[trigger] self.tribe(i).contains(v);
                    assert(wider.contains(i));
                } else {
                    assert(wider.contains(idx));
                    assert(self.tribe(idx).contains(v));
                }
            }
            assert(roots.no_duplicates()) by {
                assert forall|a: int, b: int|
                    0 <= a < roots.len() && 0 <= b < roots.len() && a != b implies roots[a]
                    != roots[b] by {
                    if a == old_roots.len() {
                        assert(before.visited@.contains(old_roots[b]));
                    } else if b == old_roots.len() {
                        assert(before.visited@.contains(old_roots[a]));
                    }
                }
            }
        }
    }

    /// A search passes over another partition.
    proof fn lemma_walk_past(
        self,
        before: Search,
        after: Search,
        query: Seq<i16>,
        allowed: Option<Set<u32>>,
        seen: Set<int>,
        idx: int,
    )
        requires
            self.takes_part(allowed, idx),
            self.walk_so_far(before, query, allowed, seen),
            self.partition_distance(query, idx) >= before.best().limit(),
            after.best() == before.best(),
            after.stats == before.stats,
            after.pending == before.pending,
            after.entered == before.entered,
            after.visited == before.visited,
        ensures
            self.walk_so_far(after, query, allowed, seen.insert(idx)),
    {
        reveal(SpecialistIndex::walk_so_far);
        let wider = seen.insert(idx);
        assert(self.participants(allowed).contains(idx));
        assert forall|k: int| 0 <= k < after.entered@.len() implies self.is_root_of(
            wider,
            #[trigger] after.entered@[k],
        ) && after.visited@.contains(after.entered@[k]) by {
            let i = choose|i: int|
                seen.contains(i) && #[trigger] self.root(i) == after.entered@[k];
            assert(wider.contains(i));
        }
        if self.exact_for(allowed) {
            assert forall|v: int| #[trigger] after.visited@.contains(v) implies self.is_node_of(
                wider,
                v,
            ) by {
                let i = choose|i: int| seen.contains(i) && #[trigger] self.tribe(i).contains(v);
                assert(wider.contains(i));
            }
        }
    }

    proof fn lemma_insert_seen(self, seen: Set<int>, i: int)
        ensures
            self.places_in(seen.insert(i)) == self.places_in(seen).union(self.below(i)),
    {
        let wider = seen.insert(i);
        assert forall|p: int| self.places_in(wider).contains(p) implies self.places_in(
            seen,
        ).contains(p) || self.below(i).contains(p) by {
            let k = choose|k: int| wider.contains(k) && #[trigger] self.below(k).contains(p);
            if k != i {
                assert(seen.contains(k));
            }
        }
        assert forall|p: int|
            self.places_in(seen).contains(p) || self.below(i).contains(p) implies self.places_in(
            wider,
        ).contains(p) by {
            if self.below(i).contains(p) {
                assert(wider.contains(i));
            } else {
                let k = choose|k: int| seen.contains(k) && #[trigger] self.below(k).contains(p);
                assert(wider.contains(k));
            }
        }
        assert(self.places_in(wider) =~= self.places_in(seen).union(self.below(i)));
    }

    /// What has been accounted for or set aside has nothing to do with a new partition.
    proof fn lemma_new_partition(
        self,
        st: Search,
        query: Seq<i16>,
        allowed: Option<Set<u32>>,
        seen: Set<int>,
        i: int,
    )
        requires
            self.exact_for(allowed),
            self.progress(st, query, allowed, seen),
            seen.subset_of(self.participants(allowed)),
            self.takes_part(allowed, i),
            !seen.contains(i),
        ensures
            st.done@.disjoint(self.below(i)),
            st.deferred(self.contents.forest.nodes@).disjoint(self.below(i)),
    {
        let all = self.places_in(seen);
        assert forall|p: int| all.contains(p) implies !self.below(i).contains(p) by {
            let k = choose|k: int| seen.contains(k) && #[trigger] self.below(k).contains(p);
            assert(self.participants(allowed).contains(k));
            assert(self.takes_part(allowed, k));
        }
        let deferred = st.deferred(self.contents.forest.nodes@);
        assert forall|p: int| st.done@.contains(p) implies !self.below(i).contains(p) by {
            assert(st.done@.union(deferred).contains(p));
        }
        assert forall|p: int| deferred.contains(p) implies !self.below(i).contains(p) by {
            assert(st.done@.union(deferred).contains(p));
        }
    }

    /// The bound of a partition's box holds.
    proof fn lemma_partition_bound(self, query: Seq<i16>, allowed: Option<Set<u32>>, i: int)
        requires
            self.wf(),
            self.exact_for(allowed),
            self.takes_part(allowed, i),
        ensures
            tree::bound_holds(
                self.contents.forest.nodes@,
                self.reach(query, allowed),
                self.root(i),
                self.partition_distance(query, i),
            ),
    {
        self.lemma_part_tree(allowed, i);
        tree::lemma_box_bound_holds(
            self.contents.forest.nodes@,
            self.contents.forest.lanes@,
            query,
            self.kin(allowed),
            self.root(i),
        );
    }

    proof fn lemma_below_in_scope(self, allowed: Option<Set<u32>>, i: int)
        requires
            self.takes_part(allowed, i),
        ensures
            self.below(i).subset_of(self.scope(allowed)),
            tree::holds_all(
                self.keyed(allowed),
                self.contents.partitions@[i].key,
                self.below(i),
            ),
    {
        assert forall|p: int| self.below(i).contains(p) implies self.scope(allowed).contains(p) by {
            assert(self.participants(allowed).contains(i));
        }
        assert forall|p: int| #[trigger] self.below(i).contains(p) implies self.keyed(
            allowed,
        ).contains((self.contents.partitions@[i].key, p)) by {
            let kp = (self.contents.partitions@[i].key, p);
            assert(self.below(i).contains(kp.1));
            assert(self.contents.partitions@[i].key == kp.0);
        }
    }

    /// Searches a partition.
    fn search_partition(
        &self,
        idx: usize,
        bound: i64,
        query: &QueryVector,
        st: &mut Search,
        allowed: Ghost<Option<Set<u32>>>,
        seen: Ghost<Set<int>>,
    )
        requires
            self.wf(),
            self.takes_part(allowed@, idx as int),
            old(st).stats.partitions_visited < 0x8000_0000,
            old(st).in_order(
                self.contents.forest.nodes@,
                self.contents.forest.lanes@,
                query@,
                self.scope(allowed@),
            ),
        ensures
            final(st).in_order(
                self.contents.forest.nodes@,
                self.contents.forest.lanes@,
                query@,
                self.scope(allowed@),
            ),
            final(st).best().limit() <= old(st).best().limit(),
            final(st).trail() == self.entered(query@, idx as int, bound as int, old(st).trail()),
            final(st).stats.partitions_visited == (old(st).stats.partitions_visited + 1)
                % 0x1_0000_0000,
            final(st).stats.secondary_partitions == old(st).stats.secondary_partitions,
            final(st).pending.enabled == old(st).pending.enabled,
            !old(st).pending.enabled ==> final(st).pending@ == old(st).pending@,
            old(st).best().keyed_by(self.keyed(allowed@)) ==> final(st).best().keyed_by(
                self.keyed(allowed@),
            ),
            self.exact_for(allowed@) && self.progress(*old(st), query@, allowed@, seen@)
                && seen@.subset_of(self.participants(allowed@)) && !seen@.contains(idx as int)
                && tree::bound_holds(
                self.contents.forest.nodes@,
                self.reach(query@, allowed@),
                self.root(idx as int),
                bound as int,
            ) ==> self.progress(*final(st), query@, allowed@, seen@.insert(idx as int)),
            self.walk_so_far(*old(st), query@, allowed@, seen@) && !seen@.contains(idx as int)
                && bound <= old(st).best().limit() ==> self.walk_so_far(
                *final(st),
                query@,
                allowed@,
                seen@.insert(idx as int),
            ),
    {
        let root: usize = self.contents.partitions[idx].root as usize;
        let key: u32 = self.contents.partitions[idx].key;
        proof {
            self.lemma_part_tree(allowed@, idx as int);
            self.lemma_below_in_scope(allowed@, idx as int);
            self.lemma_insert_seen(seen@, idx as int);
            if self.exact_for(allowed@) && self.progress(*st, query@, allowed@, seen@)
                && seen@.subset_of(self.participants(allowed@)) && !seen@.contains(idx as int) {
                self.lemma_new_partition(*st, query@, allowed@, seen@, idx as int);
            }
        }
        self.contents.forest.search_node_iterative(
            root,
            bound,
            query,
            key,
            st,
            Ghost(self.kin(allowed@)),
            Ghost(self.scope(allowed@)),
            Ghost(self.keyed(allowed@)),
        );
        proof {
            if self.walk_so_far(*old(st), query@, allowed@, seen@) && !seen@.contains(idx as int)
                && bound <= old(st).best().limit() {
                self.lemma_walk_on(
                    *old(st),
                    *st,
                    query@,
                    allowed@,
                    seen@,
                    idx as int,
                    bound,
                );
            }
        }
    }

    /// Passes over a partition whose box is too far away.
    fn pass_over(
        &self,
        idx: usize,
        bound: i64,
        query: &QueryVector,
        st: &mut Search,
        allowed: Ghost<Option<Set<u32>>>,
        seen: Ghost<Set<int>>,
    )
        requires
            self.wf(),
            self.takes_part(allowed@, idx as int),
            old(st).best().limit() <= bound,
        ensures
            final(st).trail() == old(st).trail(),
            final(st).best() == old(st).best(),
            final(st).stats == old(st).stats,
            final(st).pending == old(st).pending,
            final(st).entered == old(st).entered,
            final(st).visited == old(st).visited,
            self.exact_for(allowed@) && self.progress(*old(st), query@, allowed@, seen@)
                && seen@.subset_of(self.participants(allowed@)) && !seen@.contains(idx as int)
                && tree::bound_holds(
                self.contents.forest.nodes@,
                self.reach(query@, allowed@),
                self.root(idx as int),
                bound as int,
            ) ==> self.progress(*final(st), query@, allowed@, seen@.insert(idx as int)),
            self.walk_so_far(*old(st), query@, allowed@, seen@) && bound == self.partition_distance(
                query@,
                idx as int,
            ) ==> self.walk_so_far(*final(st), query@, allowed@, seen@.insert(idx as int)),
    {
        let ghost nodes = self.contents.forest.nodes@;
        let ghost lanes = self.contents.forest.lanes@;
        let ghost root = self.root(idx as int);
        let ghost below = self.below(idx as int);
        let ghost go = self.exact_for(allowed@) && self.progress(*st, query@, allowed@, seen@)
            && seen@.subset_of(self.participants(allowed@)) && !seen@.contains(idx as int)
            && tree::bound_holds(nodes, self.reach(query@, allowed@), root, bound as int);
        proof {
            self.lemma_part_tree(allowed@, idx as int);
            self.lemma_insert_seen(seen@, idx as int);
            if go {
                self.lemma_new_partition(*st, query@, allowed@, seen@, idx as int);
                tree::lemma_too_far(
                    *st,
                    nodes,
                    lanes,
                    query@,
                    self.kin(allowed@),
                    root,
                    bound,
                );
            }
        }
        st.done = Ghost(st.done@.union(below));
        proof {
            if go {
                let deferred = st.deferred(nodes);
                assert(st.done@.disjoint(deferred)) by {
                    assert forall|p: int| st.done@.contains(p) implies !deferred.contains(p) by {}
                }
                assert(st.done@.union(deferred) =~= self.places_in(seen@.insert(idx as int)));
            }
            if self.walk_so_far(*old(st), query@, allowed@, seen@) && bound
                == self.partition_distance(query@, idx as int) {
                self.lemma_walk_past(*old(st), *st, query@, allowed@, seen@, idx as int);
            }
        }
    }
}

/// The partitions that are left over for the sweep: each takes part, is not accounted for, and comes
/// with the distance of its box; no other is left.
spec fn entries_hold(
    index: SpecialistIndex,
    entries: Seq<(i64, usize)>,
    from: int,
    query: Seq<i16>,
    allowed: Option<Set<u32>>,
    seen: Set<int>,
) -> bool {
    let parts = index.contents.partitions@;
    &&& forall|k: int|
        from <= k < entries.len() ==> {
            let i = (#[trigger] entries[k]).1 as int;
            &&& index.takes_part(allowed, i)
            &&& !seen.contains(i)
            &&& entries[k].0 == knn::box_distance(query, parts[i].min@, parts[i].max@)
        }
    &&& forall|k: int, l: int|
        from <= k < l < entries.len() ==> (#[trigger] entries[k]).1 != (#[trigger] entries[l]).1
}

/// One of the entries from `from` on is for partition `i`.
spec fn has_entry(entries: Seq<(i64, usize)>, from: int, i: int) -> bool {
    exists|k: int| from <= k < entries.len() && (#[trigger] entries[k]).1 == i
}

proof fn lemma_sorted_entries(
    index: SpecialistIndex,
    before: Seq<(i64, usize)>,
    after: Seq<(i64, usize)>,
    query: Seq<i16>,
    allowed: Option<Set<u32>>,
    seen: Set<int>,
)
    requires
        entries_hold(index, before, 0, query, allowed, seen),
        before.to_multiset() == after.to_multiset(),
    ensures
        entries_hold(index, after, 0, query, allowed, seen),
        forall|i: int| #[trigger] has_entry(before, 0, i) ==> has_entry(after, 0, i),
{
    assert(before.no_duplicates()) by {
        assert forall|a: int, b: int| 0 <= a < before.len() && 0 <= b < before.len() && a != b
            implies before[a] != before[b] by {
            if a < b {
                assert(before[a].1 != before[b].1);
            } else {
                assert(before[b].1 != before[a].1);
            }
        }
    }
    before.lemma_multiset_has_no_duplicates();
    after.lemma_multiset_has_no_duplicates_conv();
    before.to_multiset_ensures();
    after.to_multiset_ensures();
    assert forall|k: int| 0 <= k < after.len() implies before.contains(#[trigger] after[k]) by {
        assert(after.contains(after[k]));
        assert(after.to_multiset().count(after[k]) > 0);
    }
    assert forall|k: int| 0 <= k < after.len() implies {
        let i = (#[trigger] after[k]).1 as int;
        &&& index.takes_part(allowed, i)
        &&& !seen.contains(i)
        &&& after[k].0 == knn::box_distance(
            query,
            index.contents.partitions@[i].min@,
            index.contents.partitions@[i].max@,
        )
    } by {
        assert(before.contains(after[k]));
        let m = choose|m: int| 0 <= m < before.len() && before[m] == after[k];
        assert(before[m] == after[k]);
    }
    assert forall|k: int, l: int| 0 <= k < l < after.len() implies (#[trigger] after[k]).1 != (
    #[trigger] after[l]).1 by {
        let a = choose|a: int| 0 <= a < before.len() && before[a] == after[k];
        let b = choose|b: int| 0 <= b < before.len() && before[b] == after[l];
        assert(before.contains(after[k]) && before.contains(after[l]));
        assert(after[k] != after[l]);
        if a < b {
            assert(before[a].1 != before[b].1);
        } else {
            assert(before[b].1 != before[a].1);
        }
    }
    assert forall|i: int| #[trigger] has_entry(before, 0, i) implies has_entry(after, 0, i) by {
        let k = choose|k: int| 0 <= k < before.len() && (#[trigger] before[k]).1 == i;
        assert(before.contains(before[k]));
        assert(before.to_multiset().count(before[k]) > 0);
        assert(after.contains(before[k]));
        let m = choose|m: int| 0 <= m < after.len() && after[m] == before[k];
        assert(after[m].1 == i);
    }
}

impl SpecialistIndex {
    /// Tells whether partitions with the key may be searched.
    fn partition_search_allowed(&self, key: u32, allowed: Option<&PartitionSet>) -> (r: bool)
        ensures
            r == permitted(keys_of(allowed), key),
    {
        match allowed {
            Some(set) => set.contains(key),
            None => true,
        }
    }

    /// The partition that is found by a key.
    pub fn partition_idx_for_key(&self, key: u32) -> (r: Option<usize>)
        requires
            self.wf(),
        ensures
            r matches Some(idx) ==> key < KEY_LOOKUP_SIZE && idx == specialist::partition_of(
                self.contents.partitions@,
                key as int,
            ) && idx < self.contents.partitions@.len() && self.contents.partitions@[idx as int].key
                == key,
            r is None ==> key >= KEY_LOOKUP_SIZE || specialist::partition_of(
                self.contents.partitions@,
                key as int,
            ) == -1,
    {
        if key as usize >= KEY_LOOKUP_SIZE {
            return None;
        }
        proof {
            specialist::lemma_partition_of(self.contents.partitions@, key as int);
        }
        let idx: i32 = self.key_to_partition[key as usize];
        if idx >= 0 {
            Some(idx as usize)
        } else {
            None
        }
    }

    /// Searches all permitted partitions, without regard to their boxes.
    fn search_all(
        &self,
        query: &QueryVector,
        allowed: Option<&PartitionSet>,
        st: &mut Search,
    )
        requires
            self.wf(),
            self.settings.mode == SearchMode::Exact,
            old(st).in_order(
                self.contents.forest.nodes@,
                self.contents.forest.lanes@,
                query@,
                self.scope(keys_of(allowed)),
            ),
            old(st).stats.partitions_visited == 0,
            !old(st).pending.enabled,
            old(st).best().keyed_by(self.keyed(keys_of(allowed))),
        ensures
            final(st).in_order(
                self.contents.forest.nodes@,
                self.contents.forest.lanes@,
                query@,
                self.scope(keys_of(allowed)),
            ),
            final(st).trail() == self.in_turn(
                query@,
                keys_of(allowed),
                old(st).trail(),
                self.contents.partitions@.len(),
            ),
            final(st).stats.partitions_visited == permitted_count(
                self.contents.partitions@,
                keys_of(allowed),
            ),
            final(st).stats.secondary_partitions == old(st).stats.secondary_partitions,
            final(st).pending.enabled == old(st).pending.enabled,
            final(st).pending@ == old(st).pending@,
            final(st).best().keyed_by(self.keyed(keys_of(allowed))),
            self.exact_for(keys_of(allowed)) && self.progress(
                *old(st),
                query@,
                keys_of(allowed),
                Set::empty(),
            ) ==> self.progress(
                *final(st),
                query@,
                keys_of(allowed),
                self.participants(keys_of(allowed)),
            ),
            self.walk_so_far(*old(st), query@, keys_of(allowed), Set::empty()) ==> self.walk_so_far(
                *final(st),
                query@,
                keys_of(allowed),
                self.participants(keys_of(allowed)),
            ),
    {
        let ghost a = keys_of(allowed);
        let ghost parts = self.contents.partitions@;
        let ghost nodes = self.contents.forest.nodes@;
        let ghost lanes = self.contents.forest.lanes@;
        let ghost go = self.exact_for(a) && self.progress(*st, query@, a, Set::empty());
        let ghost strolls = self.walk_so_far(*st, query@, a, Set::empty());
        let ghost mut seen: Set<int> = Set::empty();
        let mut idx: usize = 0;
        assert(parts.take(0) =~= Seq::<layout::Partition>::empty());
        proof {
            self.lemma_limit(*st, query@, self.scope(a));
        }
        while idx < self.contents.partitions.len()
            invariant
                idx <= parts.len() <= 0x7fff_ffff,
                self.wf(),
                self.settings.mode == SearchMode::Exact,
                a == keys_of(allowed),
                parts == self.contents.partitions@,
                nodes == self.contents.forest.nodes@,
                lanes == self.contents.forest.lanes@,
                st.in_order(nodes, lanes, query@, self.scope(a)),
                st.trail() == self.in_turn(query@, a, old(st).trail(), idx as nat),
                st.stats.partitions_visited == permitted_count(parts.take(idx as int), a),
                permitted_count(parts.take(idx as int), a) <= idx,
                st.stats.secondary_partitions == old(st).stats.secondary_partitions,
                !st.pending.enabled,
                st.pending@ == old(st).pending@,
                st.best().keyed_by(self.keyed(a)),
                go ==> self.exact_for(a) && self.progress(*st, query@, a, seen),
                strolls ==> self.walk_so_far(*st, query@, a, seen),
                st.best().limit() >= 0,
                seen.subset_of(self.participants(a)),
                forall|i: int| #[trigger] seen.contains(i) <==> 0 <= i < idx && self.takes_part(a, i),
            decreases parts.len() - idx,
        {
            let key: u32 = self.contents.partitions[idx].key;
            proof {
                let longer = parts.take(idx + 1);
                assert(longer.drop_last() =~= parts.take(idx as int));
                assert(longer.last() == parts[idx as int]);
            }
            if self.partition_search_allowed(key, allowed) {
                assert(self.takes_part(a, idx as int));
                proof {
                    self.lemma_zero_bound(query@, a, idx as int);
                }
                self.search_partition(idx, 0, query, st, Ghost(a), Ghost(seen));
                proof {
                    assert(self.participants(a).contains(idx as int));
                    seen = seen.insert(idx as int);
                    self.lemma_limit(*st, query@, self.scope(a));
                }
            }
            idx = idx + 1;
        }
        proof {
            assert(parts.take(idx as int) =~= parts);
            assert(seen =~= self.participants(a));
        }
    }

    proof fn lemma_zero_bound(self, query: Seq<i16>, allowed: Option<Set<u32>>, i: int)
        requires
            self.wf(),
            self.takes_part(allowed, i),
        ensures
            tree::bound_holds(
                self.contents.forest.nodes@,
                self.reach(query, allowed),
                self.root(i),
                0,
            ),
    {
        let nodes = self.contents.forest.nodes@;
        let lanes = self.contents.forest.lanes@;
        let far = self.reach(query, allowed);
        self.lemma_part_tree(allowed, i);
        tree::lemma_reach_holds(nodes, lanes, query, self.kin(allowed));
        tree::lemma_covers_in_range(nodes, lanes, self.root(i));
        assert forall|p: int| #[trigger] tree::covers(nodes, self.root(i)).contains(p) implies far[p]
            >= 0 by {
            knn::lemma_distance_bounds(query, lanes[p].vector@);
        }
    }

    /// The limit is never negative.
    proof fn lemma_limit(self, st: Search, query: Seq<i16>, scope: Set<int>)
        requires
            st.best().sound(query, self.contents.forest.lanes@, scope),
        ensures
            st.best().limit() >= 0,
    {
        let lanes = self.contents.forest.lanes@;
        assert(st.best().candidate_holds(K - 1, query, lanes, scope));
        if st.best().places[K - 1] != -1 {
            knn::lemma_distance_bounds(query, lanes[st.best().places[K - 1]].vector@);
        }
    }
}

/// How many of the partitions may be searched.
pub open spec fn permitted_count(
    partitions: Seq<layout::Partition>,
    allowed: Option<Set<u32>>,
) -> nat
    decreases partitions.len(),
{
    if partitions.len() == 0 {
        0
    } else {
        permitted_count(partitions.drop_last(), allowed) + if permitted(
            allowed,
            partitions.last().key,
        ) {
            1nat
        } else {
            0
        }
    }
}

impl SpecialistIndex {
    /// Every partition that takes part is accounted for or among the entries from `from` on.
    spec fn all_there(
        self,
        entries: Seq<(i64, usize)>,
        from: int,
        allowed: Option<Set<u32>>,
        seen: Set<int>,
    ) -> bool {
        forall|i: int| #[trigger]
            self.takes_part(allowed, i) ==> seen.contains(i) || has_entry(entries, from, i)
    }

    /// The partitions whose boxes are near enough, with the distances of their boxes; the others are
    /// passed over.
    fn collect_entries(
        &self,
        query: &QueryVector,
        skip: Option<u32>,
        allowed: Option<&PartitionSet>,
        st: &mut Search,
        already: Ghost<Set<int>>,
    ) -> (r: (Vec<(i64, usize)>, Ghost<Set<int>>))
        requires
            self.wf(),
            self.settings.mode != SearchMode::Exact,
            already@.subset_of(self.participants(keys_of(allowed))),
            forall|i: int| #[trigger]
                already@.contains(i) ==> skip == Some(self.contents.partitions@[i].key),
            forall|i: int| #[trigger]
                self.takes_part(keys_of(allowed), i) && skip == Some(
                    self.contents.partitions@[i].key,
                ) ==> already@.contains(i),
        ensures
            final(st).trail() == old(st).trail(),
            final(st).best() == old(st).best(),
            final(st).stats == old(st).stats,
            final(st).pending == old(st).pending,
            final(st).entered == old(st).entered,
            final(st).visited == old(st).visited,
            r.0@.len() <= KEY_LOOKUP_SIZE,
            already@.subset_of(r.1@),
            r.1@.subset_of(self.participants(keys_of(allowed))),
            forall|k: int, l: int|
                0 <= k < l < r.0@.len() ==> self.contents.partitions@[(
                #[trigger] r.0@[k]).1 as int].key < self.contents.partitions@[(
                #[trigger] r.0@[l]).1 as int].key,
            forall|k: int|
                0 <= k < r.0@.len() ==> skip != Some(
                    self.contents.partitions@[(#[trigger] r.0@[k]).1 as int].key,
                ) && r.0@[k].0 < old(st).best().limit(),
            forall|i: int| #[trigger]
                self.takes_part(keys_of(allowed), i) && skip != Some(
                    self.contents.partitions@[i].key,
                ) && self.partition_distance(query@, i) < old(st).best().limit() ==> has_entry(
                    r.0@,
                    0,
                    i,
                ),
            entries_hold(*self, r.0@, 0, query@, keys_of(allowed), r.1@),
            self.all_there(r.0@, 0, keys_of(allowed), r.1@),
            self.exact_for(keys_of(allowed)) && self.progress(
                *old(st),
                query@,
                keys_of(allowed),
                already@,
            ) ==> self.progress(*final(st), query@, keys_of(allowed), r.1@),
            self.walk_so_far(*old(st), query@, keys_of(allowed), already@) ==> self.walk_so_far(
                *final(st),
                query@,
                keys_of(allowed),
                r.1@,
            ),
    {
        let ghost a = keys_of(allowed);
        let ghost parts = self.contents.partitions@;
        let ghost active = self.active_keys@;
        let ghost go = self.exact_for(a) && self.progress(*st, query@, a, already@);
        let ghost strolls = self.walk_so_far(*st, query@, a, already@);
        let ghost mut seen: Set<int> = already@;
        let mut entries: Vec<(i64, usize)> = Vec::new();
        let mut k: usize = 0;
        while k < self.active_keys.len()
            invariant
                k <= active.len() <= KEY_LOOKUP_SIZE,
                self.wf(),
                self.settings.mode != SearchMode::Exact,
                a == keys_of(allowed),
                parts == self.contents.partitions@,
                active == self.active_keys@,
                st.trail() == old(st).trail(),
                st.best() == old(st).best(),
                st.stats == old(st).stats,
                st.pending == old(st).pending,
                st.entered == old(st).entered,
                st.visited == old(st).visited,
                forall|m: int, l: int|
                    0 <= m < l < entries@.len() ==> parts[(#[trigger] entries@[m]).1 as int].key
                        < parts[(#[trigger] entries@[l]).1 as int].key,
                forall|m: int|
                    0 <= m < entries@.len() ==> (#[trigger] entries@[m]).0 < st.best().limit(),
                forall|i: int| #[trigger]
                    self.takes_part(a, i) && among(active, k as int, parts[i].key) && skip != Some(
                        parts[i].key,
                    ) && self.partition_distance(query@, i) < st.best().limit() ==> has_entry(
                        entries@,
                        0,
                        i,
                    ),
                strolls ==> self.walk_so_far(*st, query@, a, seen),
                entries@.len() <= k,
                seen.subset_of(self.participants(a)),
                already@.subset_of(seen),
                forall|i: int| #[trigger]
                    self.takes_part(a, i) && skip == Some(parts[i].key) ==> already@.contains(i),
                entries_hold(*self, entries@, 0, query@, a, seen),
                forall|i: int| #[trigger]
                    seen.contains(i) ==> skip == Some(parts[i].key) || among(
                        active,
                        k as int,
                        parts[i].key,
                    ),
                forall|m: int|
                    0 <= m < entries@.len() ==> among(
                        active,
                        k as int,
                        parts[(#[trigger] entries@[m]).1 as int].key,
                    ) && skip != Some(parts[entries@[m].1 as int].key),
                forall|i: int| #[trigger]
                    self.takes_part(a, i) && among(active, k as int, parts[i].key)
                        ==> seen.contains(i) || has_entry(entries@, 0, i),
                go ==> self.exact_for(a) && self.progress(*st, query@, a, seen),
            decreases active.len() - k,
        {
            let key: u32 = self.active_keys[k];
            let ghost old_entries = entries@;
            let ghost old_seen = seen;
            assert(active.contains(key));
            assert(!among(active, k as int, key));
            let skipped: bool = match skip {
                Some(s) => s == key,
                None => false,
            };
            assert(skipped == (skip == Some(key)));
            proof {
                specialist::lemma_partition_of(parts, key as int);
            }
            if !skipped && self.partition_search_allowed(key, allowed) {
                let idx: usize = self.key_to_partition[key as usize] as usize;
                let part = self.contents.partitions[idx];
                assert(parts[idx as int].key == key);
                assert(self.takes_part(a, idx as int));
                assert(!seen.contains(idx as int));
                assert(!has_entry(entries@, 0, idx as int));
                let bound: i64 = knn::lower_bound_box(query, &part.min, &part.max);
                if bound < st.limit() {
                    proof {
                        assert forall|m: int| 0 <= m < old_entries.len() implies parts[(
                        #[trigger] old_entries[m]).1 as int].key < key by {
                            let other = parts[old_entries[m].1 as int].key;
                            let j = choose|j: int| 0 <= j < k && #[trigger] active[j] == other;
                            assert(active[j] < active[k as int]);
                        }
                    }
                    entries.push((bound, idx));
                    assert(entries@[old_entries.len() as int].1 == idx);
                } else {
                    proof {
                        if go {
                            self.lemma_partition_bound(query@, a, idx as int);
                        }
                    }
                    self.pass_over(idx, bound, query, st, Ghost(a), Ghost(seen));
                    proof {
                        assert(self.participants(a).contains(idx as int));
                        seen = seen.insert(idx as int);
                    }
                }
            }
            proof {
                lemma_among_next(active, k as int);
                assert(forall|m: int|
                    0 <= m < old_entries.len() ==> #[trigger] entries@[m] == old_entries[m]);
                assert forall|i: int| #[trigger]
                    self.takes_part(a, i) && among(active, k + 1, parts[i].key) implies seen.contains(
                    i,
                ) || has_entry(entries@, 0, i) by {
                    if among(active, k as int, parts[i].key) {
                        if has_entry(old_entries, 0, i) {
                            let m = choose|m: int|
                                0 <= m < old_entries.len() && (#[trigger] old_entries[m]).1 == i;
                            assert(entries@[m].1 == i);
                        } else {
                            assert(old_seen.contains(i));
                        }
                    } else {
                        assert(parts[i].key == key);
                    }
                }
                assert forall|i: int| #[trigger]
                    self.takes_part(a, i) && among(active, k + 1, parts[i].key) && skip != Some(
                        parts[i].key,
                    ) && self.partition_distance(query@, i) < st.best().limit() implies has_entry(
                    entries@,
                    0,
                    i,
                ) by {
                    if among(active, k as int, parts[i].key) {
                        let m = choose|m: int|
                            0 <= m < old_entries.len() && (#[trigger] old_entries[m]).1 == i;
                        assert(entries@[m].1 == i);
                    } else {
                        assert(parts[i].key == key);
                        assert(entries@[old_entries.len() as int].1 == i);
                    }
                }
            }
            k = k + 1;
        }
        proof {
            assert forall|i: int| #[trigger] self.takes_part(a, i) implies seen.contains(i)
                || has_entry(entries@, 0, i) by {
                assert(active.contains(parts[i].key));
                assert(among(active, k as int, parts[i].key));
            }
            assert forall|i: int| #[trigger]
                self.takes_part(a, i) && skip != Some(parts[i].key) && self.partition_distance(
                    query@,
                    i,
                ) < st.best().limit() implies has_entry(entries@, 0, i) by {
                assert(active.contains(parts[i].key));
                assert(among(active, k as int, parts[i].key));
            }
        }
        (entries, Ghost(seen))
    }
}

/// The key is one of the first `n`.
spec fn among(keys: Seq<u32>, n: int, key: u32) -> bool {
    exists|k: int| 0 <= k < n && #[trigger] keys[k] == key
}

proof fn lemma_among_next(keys: Seq<u32>, n: int)
    requires
        0 <= n < keys.len(),
    ensures
        forall|key: u32| #[trigger]
            among(keys, n + 1, key) <==> among(keys, n, key) || key == keys[n],
{
    assert forall|key: u32| #[trigger] among(keys, n + 1, key) <==> among(keys, n, key) || key
        == keys[n] by {
        if among(keys, n + 1, key) && key != keys[n] {
            let k = choose|k: int| 0 <= k < n + 1 && #[trigger] keys[k] == key;
            assert(keys[k] == key);
        }
        if among(keys, n, key) {
            let k = choose|k: int| 0 <= k < n && #[trigger] keys[k] == key;
            assert(keys[k] == key);
        }
    }
}

impl SpecialistIndex {
    /// Searches the partitions whose boxes are near enough, the nearest box first, until all
    /// candidates are nearer than a positive threshold.
    fn sweep(
        &self,
        query: &QueryVector,
        skip: Option<u32>,
        allowed: Option<&PartitionSet>,
        threshold: i64,
        st: &mut Search,
        already: Ghost<Set<int>>,
    )
        requires
            self.wf(),
            self.settings.mode != SearchMode::Exact,
            already@.subset_of(self.participants(keys_of(allowed))),
            forall|i: int| #[trigger]
                already@.contains(i) ==> skip == Some(self.contents.partitions@[i].key),
            forall|i: int| #[trigger]
                self.takes_part(keys_of(allowed), i) && skip == Some(
                    self.contents.partitions@[i].key,
                ) ==> already@.contains(i),
            old(st).in_order(
                self.contents.forest.nodes@,
                self.contents.forest.lanes@,
                query@,
                self.scope(keys_of(allowed)),
            ),
            old(st).stats.partitions_visited <= 1,
            old(st).stats.secondary_partitions == 0,
            threshold == self.threshold(keys_of(allowed)),
            self.settings.mode == SearchMode::KeyFirst ==> skip is Some && skip.unwrap()
                == self.key_of(query@),
            self.settings.mode != SearchMode::KeyFirst ==> skip is None,
        ensures
            final(st).trail() == self.swept(
                query@,
                keys_of(allowed),
                self.order(query@, keys_of(allowed), old(st).best().limit()),
                0,
                old(st).trail(),
            ),
            final(st).in_order(
                self.contents.forest.nodes@,
                self.contents.forest.lanes@,
                query@,
                self.scope(keys_of(allowed)),
            ),
            final(st).stats.partitions_visited == old(st).stats.partitions_visited + final(st).stats.secondary_partitions,
            final(st).stats.secondary_partitions <= KEY_LOOKUP_SIZE,
            final(st).pending.enabled == old(st).pending.enabled,
            !old(st).pending.enabled ==> final(st).pending@ == old(st).pending@,
            old(st).best().keyed_by(self.keyed(keys_of(allowed))) ==> final(st).best().keyed_by(
                self.keyed(keys_of(allowed)),
            ),
            self.exact_for(keys_of(allowed)) && self.progress(
                *old(st),
                query@,
                keys_of(allowed),
                already@,
            ) ==> exists|seen: Set<int>|
                #[trigger] self.progress(*final(st), query@, keys_of(allowed), seen)
                    && already@.subset_of(seen) && self.is_enough(
                    final(st).best(),
                    keys_of(allowed),
                    seen,
                ),
            self.walk_so_far(*old(st), query@, keys_of(allowed), already@) ==> exists|seen: Set<int>|
                #[trigger] self.walk_so_far(*final(st), query@, keys_of(allowed), seen)
                    && self.is_enough(final(st).best(), keys_of(allowed), seen),
    {
        let ghost a = keys_of(allowed);
        let ghost parts = self.contents.partitions@;
        let ghost nodes = self.contents.forest.nodes@;
        let ghost lanes = self.contents.forest.lanes@;
        let ghost go = self.exact_for(a) && self.progress(*st, query@, a, already@);
        let ghost strolls = self.walk_so_far(*st, query@, a, already@);
        let (mut entries, Ghost(collected)) = self.collect_entries(query, skip, allowed, st, already);
        let ghost mut seen: Set<int> = collected;
        let ghost unsorted = entries@;
        search::sort_partition_entries(&mut entries);
        let ghost order = Seq::new(entries@.len(), |k: int| entries@[k].1 as int);
        proof {
            lemma_sorted_entries(*self, unsorted, entries@, query@, a, seen);
            assert forall|k: int| 0 <= k < unsorted.len() implies {
                let i = (#[trigger] unsorted[k]).1 as int;
                &&& self.is_other(query@, a, i)
                &&& unsorted[k].0 == self.partition_distance(query@, i)
                &&& unsorted[k].0 < old(st).best().limit()
            } by {
                assert(self.takes_part(a, unsorted[k].1 as int));
            }
            assert forall|i: int|
                self.is_other(query@, a, i) && self.partition_distance(query@, i) < old(
                    st,
                ).best().limit() implies exists|k: int|
                0 <= k < unsorted.len() && (#[trigger] unsorted[k]).1 == i by {
                assert(self.takes_part(a, i));
                assert(has_entry(unsorted, 0, i));
            }
            route::lemma_sorted_is_order(
                *self,
                query@,
                a,
                old(st).best().limit(),
                unsorted,
                entries@,
                order,
            );
        }
        let ghost goal = self.swept(query@, a, order, 0, st.trail());
        let mut i: usize = 0;
        let mut stopped: bool = false;
        while i < entries.len() && !stopped
            invariant
                i <= entries@.len() <= KEY_LOOKUP_SIZE,
                self.wf(),
                a == keys_of(allowed),
                parts == self.contents.partitions@,
                nodes == self.contents.forest.nodes@,
                lanes == self.contents.forest.lanes@,
                st.in_order(nodes, lanes, query@, self.scope(a)),
                old(st).stats.partitions_visited <= 1,
                st.stats.partitions_visited == old(st).stats.partitions_visited
                    + st.stats.secondary_partitions,
                st.stats.secondary_partitions <= i,
                st.pending.enabled == old(st).pending.enabled,
                !old(st).pending.enabled ==> st.pending@ == old(st).pending@,
                old(st).best().keyed_by(self.keyed(a)) ==> st.best().keyed_by(self.keyed(a)),
                seen.subset_of(self.participants(a)),
                entries_hold(*self, entries@, i as int, query@, a, seen),
                self.all_there(entries@, i as int, a, seen),
                stopped ==> self.ended_early(st.best(), a),
                threshold == self.threshold(a),
                order == Seq::new(entries@.len(), |k: int| entries@[k].1 as int),
                goal == (if stopped {
                    st.trail()
                } else {
                    self.swept(query@, a, order, i as int, st.trail())
                }),
                already@.subset_of(seen),
                strolls ==> self.walk_so_far(*st, query@, a, seen),
                go ==> self.exact_for(a) && self.progress(*st, query@, a, seen),
            decreases entries@.len() - i + if stopped {
                0int
            } else {
                1
            },
        {
            let (bound, idx) = entries[i];
            let ghost old_seen = seen;
            assert(entries@[i as int].1 == idx);
            assert(order[i as int] == idx);
            let ghost before = *st;
            proof {
                if go {
                    self.lemma_partition_bound(query@, a, idx as int);
                }
            }
            if bound < st.limit() {
                st.stats.secondary_partitions = st.stats.secondary_partitions + 1;
                let ghost counted = *st;
                assert(counted.trail() == before.trail());
                assert(strolls ==> self.walk_so_far(counted, query@, a, seen)) by {
                    reveal(SpecialistIndex::walk_so_far);
                }
                assert(go ==> self.progress(counted, query@, a, seen));
                self.search_partition(idx, bound, query, st, Ghost(a), Ghost(seen));
                if threshold > 0 && st.limit() < threshold {
                    stopped = true;
                }
            } else {
                self.pass_over(idx, bound, query, st, Ghost(a), Ghost(seen));
            }
            proof {
                assert(self.participants(a).contains(idx as int));
                seen = seen.insert(idx as int);
                assert forall|k: int| i + 1 <= k < entries@.len() implies !seen.contains(
                    (#[trigger] entries@[k]).1 as int,
                ) by {
                    assert(entries@[i as int].1 != entries@[k].1);
                }
                assert forall|j: int| #[trigger] self.takes_part(a, j) implies seen.contains(j)
                    || has_entry(entries@, i + 1, j) by {
                    if !old_seen.contains(j) {
                        let k = choose|k: int|
                            i <= k < entries@.len() && (#[trigger] entries@[k]).1 == j;
                        if k > i {
                            assert(entries@[k].1 == j);
                        }
                    }
                }
            }
            i = i + 1;
        }
        proof {
            assert(strolls ==> self.walk_so_far(*st, query@, a, seen));
            if !stopped {
                assert(seen =~= self.participants(a)) by {
                    assert forall|j: int| self.participants(a).contains(j) implies seen.contains(
                        j,
                    ) by {
                        assert(self.takes_part(a, j));
                    }
                }
            }
        }
    }

    /// With these partitions behind it, a search that found these candidates is over: they are all
    /// that take part, or the search ended early.
    pub open spec fn is_enough(
        self,
        n: Neighbours,
        allowed: Option<Set<u32>>,
        seen: Set<int>,
    ) -> bool {
        &&& seen.subset_of(self.participants(allowed))
        &&& self.ended_early(n, allowed) || seen == self.participants(allowed)
    }

    /// The distance under which a search ends early, or 0.
    pub open spec fn threshold(self, allowed: Option<Set<u32>>) -> int {
        if self.settings.mode == SearchMode::Exact || allowed is Some {
            0
        } else {
            self.settings.early_exit_threshold as int
        }
    }

    /// The search ended early: all candidates are nearer than the threshold.
    pub open spec fn ended_early(self, n: Neighbours, allowed: Option<Set<u32>>) -> bool {
        0 < self.threshold(allowed) && n.limit() < self.threshold(allowed)
    }

    /// The query's own partition is searched first.
    pub open spec fn key_partition_first(self, query: Seq<i16>, allowed: Option<Set<u32>>) -> bool {
        let key = self.key_of(query);
        &&& self.settings.mode == SearchMode::KeyFirst
        &&& key < KEY_LOOKUP_SIZE
        &&& specialist::partition_of(self.contents.partitions@, key) >= 0
        &&& permitted(allowed, key as u32)
    }

    /// The query's own partition is among these, where it is searched first.
    pub open spec fn covers_own(
        self,
        query: Seq<i16>,
        allowed: Option<Set<u32>>,
        seen: Set<int>,
    ) -> bool {
        self.key_partition_first(query, allowed) ==> seen.contains(
            specialist::partition_of(self.contents.partitions@, self.key_of(query)),
        )
    }

    /// The candidates are the query's nearest neighbours in the partitions that the search has behind
    /// it: the query's own, where it is searched first, and all that take part, unless it ended early.
    pub open spec fn nearest_so_far(
        self,
        n: Neighbours,
        query: Seq<i16>,
        allowed: Option<Set<u32>>,
    ) -> bool {
        exists|seen: Set<int>|
            {
                &&& n.nearest(
                    query,
                    self.contents.forest.lanes@,
                    self.reach(query, allowed),
                    #[trigger] self.places_in(seen),
                )
                &&& self.is_enough(n, allowed, seen)
                &&& self.covers_own(query, allowed, seen)
            }
    }

    /// As many of the candidates are fraudulent as of the query's nearest neighbours in the partitions
    /// that the search has behind it.
    pub open spec fn counted_so_far(
        self,
        n: Neighbours,
        query: Seq<i16>,
        allowed: Option<Set<u32>>,
    ) -> bool {
        exists|seen: Set<int>|
            {
                &&& knn::counts_nearest(
                    n.frauds(),
                    query,
                    self.contents.forest.lanes@,
                    self.reach(query, allowed),
                    #[trigger] self.places_in(seen),
                )
                &&& self.is_enough(n, allowed, seen)
                &&& self.covers_own(query, allowed, seen)
            }
    }

    /// What was counted fits the search mode.
    pub open spec fn partitions_counted(
        self,
        stats: SearchStats,
        query: Seq<i16>,
        allowed: Option<Set<u32>>,
    ) -> bool {
        if self.settings.mode == SearchMode::Exact {
            &&& stats.partitions_visited == permitted_count(self.contents.partitions@, allowed)
            &&& stats.secondary_partitions == 0
        } else {
            &&& stats.partitions_visited == stats.secondary_partitions + if self.key_partition_first(
                query,
                allowed,
            ) {
                1int
            } else {
                0
            }
            &&& stats.secondary_partitions <= KEY_LOOKUP_SIZE
        }
    }

    /// Searches the permitted partitions. Where subtrees may be set aside, those that could change
    /// the verdict are searched in the end.
    #[verifier::rlimit(60)]
    #[verifier::spinoff_prover]
    fn run(
        &self,
        query: &QueryVector,
        allowed: Option<&PartitionSet>,
        label_defer: bool,
    ) -> (r: Search)
        requires
            self.wf(),
            self.settings.mode == SearchMode::Exact ==> !label_defer,
        ensures
            r.in_order(
                self.contents.forest.nodes@,
                self.contents.forest.lanes@,
                query@,
                self.scope(keys_of(allowed)),
            ),
            !label_defer ==> r.best().keyed_by(self.keyed(keys_of(allowed)))
                && self.partitions_counted(r.stats, query@, keys_of(allowed)) && self.walk_is_over(
                r,
                query@,
                keys_of(allowed),
            ),
            r.trail() == self.trail(query@, keys_of(allowed), label_defer),
            !label_defer && self.exact_for(keys_of(allowed)) ==> self.nearest_so_far(
                r.best(),
                query@,
                keys_of(allowed),
            ),
            label_defer && self.exact_for(keys_of(allowed)) && self.classed(keys_of(allowed))
                ==> self.counted_so_far(r.best(), query@, keys_of(allowed)),
            self.exact_for(keys_of(allowed)) ==> r.best().apart(),
    {
        let ghost a = keys_of(allowed);
        let ghost nodes = self.contents.forest.nodes@;
        let ghost lanes = self.contents.forest.lanes@;
        let mut st = Search::new(label_defer);
        proof {
            reveal(SpecialistIndex::trail);
            self.lemma_begun(st, query@, a);
        }
        if self.settings.mode == SearchMode::Exact {
            self.search_all(query, allowed, &mut st);
            proof {
                if self.exact_for(a) {
                    assert(st.deferred(nodes) =~= Set::<int>::empty());
                    assert(st.done@ =~= self.scope(a));
                    assert(st.best().nearest(
                        query@,
                        lanes,
                        self.reach(query@, a),
                        self.places_in(self.participants(a)),
                    ));
                }
            }
            return st;
        }
        let query_key: u32 = self.compute_partition_key(query);
        let threshold: i64 = if allowed.is_some() {
            0
        } else {
            self.settings.early_exit_threshold
        };
        assert(threshold == self.threshold(a));
        let mut skip: Option<u32> = None;
        let mut over: bool = false;
        let ghost mut already: Set<int> = Set::empty();
        if self.settings.mode == SearchMode::KeyFirst {
            skip = Some(query_key);
            match self.partition_idx_for_key(query_key) {
                Some(idx) => {
                    if self.partition_search_allowed(query_key, allowed) {
                        let part = self.contents.partitions[idx];
                        assert(self.takes_part(a, idx as int));
                        let bound: i64 = knn::lower_bound_box(query, &part.min, &part.max);
                        proof {
                            if self.exact_for(a) {
                                self.lemma_partition_bound(query@, a, idx as int);
                            }
                        }
                        self.search_partition(
                            idx,
                            bound,
                            query,
                            &mut st,
                            Ghost(a),
                            Ghost(already),
                        );
                        proof {
                            assert(self.participants(a).contains(idx as int));
                            already = already.insert(idx as int);
                            assert(self.key_partition_first(query@, a));
                            assert(!label_defer ==> self.walk_so_far(st, query@, a, already));
                        }
                        if threshold > 0 && st.limit() < threshold {
                            over = true;
                        }
                    }
                },
                None => {},
            }
        }
        proof {
            assert forall|i: int| #[trigger]
                self.takes_part(a, i) && skip == Some(self.contents.partitions@[i].key) implies already.contains(
                i,
            ) by {
                assert(self.contents.partitions@[i].key == query_key);
            }
        }
        let ghost mut seen: Set<int> = already;
        if !over {
            self.sweep(query, skip, allowed, threshold, &mut st, Ghost(already));
            proof {
                if self.exact_for(a) {
                    seen = choose|seen: Set<int>|
                        #[trigger] self.progress(st, query@, a, seen) && already.subset_of(seen)
                            && self.is_enough(st.best(), a, seen);
                }
            }
        }
        let ghost swept = st;
        proof {
            assert(swept.trail() == self.outward(query@, a, label_defer));
            assert(self.exact_for(a) ==> self.progress(swept, query@, a, seen)
                && already.subset_of(seen) && self.is_enough(swept.best(), a, seen));
        }
        if label_defer {
            self.contents.forest.replay_pending_if_needed(
                query,
                &mut st,
                Ghost(self.kin(a)),
                Ghost(self.scope(a)),
            );
        }
        proof {
            if self.exact_for(a) {
                assert(self.covers_own(query@, a, seen));
                if !label_defer {
                    assert(swept.deferred(nodes) =~= Set::<int>::empty());
                    assert(swept.done@ =~= self.places_in(seen));
                    assert(st.best().nearest(
                        query@,
                        lanes,
                        self.reach(query@, a),
                        self.places_in(seen),
                    ));
                } else if self.classed(a) {
                    self.lemma_two_labels(swept, query@, a, seen);
                    assert(self.is_enough(st.best(), a, seen));
                    assert(knn::counts_nearest(
                        st.best().frauds(),
                        query@,
                        lanes,
                        self.reach(query@, a),
                        self.places_in(seen),
                    ));
                }
            }
        }
        st
    }

    /// A search that has not begun is in order and exact.
    proof fn lemma_begun(self, st: Search, query: Seq<i16>, allowed: Option<Set<u32>>)
        requires
            self.wf(),
            st.best() == Neighbours::none(),
            st.stats.nodes_visited == 0,
            st.stats.leaves_scanned == 0,
            st.stats.blocks_scanned == 0,
            st.pending.wf(),
            st.pending@ == Seq::<(usize, i64)>::empty(),
            st.done@ == Set::<int>::empty(),
            st.stats.partitions_visited == 0,
            st.entered@ == Seq::<int>::empty(),
            st.visited@ == Seq::<int>::empty(),
        ensures
            st.in_order(
                self.contents.forest.nodes@,
                self.contents.forest.lanes@,
                query,
                self.scope(allowed),
            ),
            self.progress(st, query, allowed, Set::empty()),
            !st.pending.enabled ==> self.walk_so_far(st, query, allowed, Set::empty()),
            st.best().keyed_by(self.keyed(allowed)),
    {
        let nodes = self.contents.forest.nodes@;
        let lanes = self.contents.forest.lanes@;
        reveal(SpecialistIndex::walk_so_far);
        knn::lemma_none_nearest(query, lanes, self.reach(query, allowed));
        knn::lemma_sound_in_wider_scope(
            st.best(),
            query,
            lanes,
            Set::empty(),
            self.scope(allowed),
        );
        assert(st.deferred(nodes) =~= Set::<int>::empty());
        assert(self.places_in(Set::empty()) =~= Set::<int>::empty());
        assert(st.done@.union(st.deferred(nodes)) =~= Set::<int>::empty());
        assert forall|i: int| 0 <= i < K implies #[trigger] st.places@[i] == -1 by {
            assert(st.best().places[i] == -1);
        }
        assert forall|i: int| 0 <= i < K implies (#[trigger] st.best().keys[i]) == u32::MAX
            && st.best().places[i] == -1 by {}
    }

    /// All references that were accounted for have one of two labels where the trees' class bits are
    /// right.
    proof fn lemma_two_labels(
        self,
        st: Search,
        query: Seq<i16>,
        allowed: Option<Set<u32>>,
        seen: Set<int>,
    )
        requires
            self.wf(),
            self.progress(st, query, allowed, seen),
            seen.subset_of(self.participants(allowed)),
            self.classed(allowed),
        ensures
            knn::two_labels(self.contents.forest.lanes@, st.done@),
    {
        let nodes = self.contents.forest.nodes@;
        let lanes = self.contents.forest.lanes@;
        assert forall|p: int| #[trigger] st.done@.contains(p) implies lanes[p].label <= 1 by {
            assert(st.done@.union(st.deferred(nodes)).contains(p));
            let i = choose|i: int| seen.contains(i) && #[trigger] self.below(i).contains(p);
            assert(self.participants(allowed).contains(i));
            assert(self.takes_part(allowed, i));
            let root = self.root(i);
            self.lemma_part_tree(allowed, i);
            assert(self.kin(allowed).contains(root));
            assert(tree::covers(nodes, root).contains(p));
        }
    }
}

impl SpecialistIndex {
    /// A search may set subtrees aside.
    pub open spec fn defers(self) -> bool {
        self.settings.label_defer && self.settings.mode != SearchMode::Exact
    }

    /// The candidates are those that the search finds on its way, references in scope. Where the index
    /// is as it should be, no two of them are the same, and as many of them are fraudulent as of the
    /// query's nearest neighbours in the partitions that the search has behind it: all of them, unless
    /// it ended early.
    pub open spec fn decides(
        self,
        n: Neighbours,
        query: Seq<i16>,
        allowed: Option<Set<u32>>,
    ) -> bool {
        &&& n == self.trail(query, allowed, self.defers()).found
        &&& n.sound(query, self.contents.forest.lanes@, self.scope(allowed))
        &&& self.exact_for(allowed) && (self.defers() ==> self.classed(allowed))
            ==> self.counted_so_far(n, query, allowed)
        &&& self.exact_for(allowed) ==> n.apart()
    }

    /// The candidates are those that a search which sets nothing aside finds on its way, references in
    /// scope, with the keys of their partitions. Where the index is as it should be, they are the
    /// query's nearest neighbours in the partitions that the search has behind it: all of them, unless
    /// it ended early.
    pub open spec fn finds(
        self,
        n: Neighbours,
        query: Seq<i16>,
        allowed: Option<Set<u32>>,
    ) -> bool {
        &&& n == self.trail(query, allowed, false).found
        &&& n.sound(query, self.contents.forest.lanes@, self.scope(allowed))
        &&& n.keyed_by(self.keyed(allowed))
        &&& self.exact_for(allowed) ==> self.nearest_so_far(n, query, allowed)
    }

    /// The node is the root of a partition that takes part.
    #[verifier::opaque]
    pub open spec fn is_entry(self, allowed: Option<Set<u32>>, root: int) -> bool {
        exists|i: int| self.takes_part(allowed, i) && #[trigger] self.root(i) == root
    }

    /// The counts are those of a search that sets nothing aside. On its way it entered trees at these
    /// nodes, visited these nodes, one below the other, and found these candidates there. It entered
    /// every partition that takes part unless the partition's box is no nearer than the candidates or
    /// the search ended early, and it stopped in time. Where the index is as it should be, it visited
    /// no node twice, and left out only nodes whose boxes are farther away than the candidates.
    #[verifier::opaque]
    pub open spec fn counts(
        self,
        stats: SearchStats,
        n: Neighbours,
        entered: Seq<int>,
        visited: Seq<int>,
        query: Seq<i16>,
        allowed: Option<Set<u32>>,
    ) -> bool {
        let nodes = self.contents.forest.nodes@;
        let way = self.trail(query, allowed, false);
        &&& n == way.found
        &&& entered == way.entered
        &&& visited == way.visited
        &&& self.in_time(way, allowed)
        &&& stats.nodes_visited == visited.len() % 0x1_0000_0000
        &&& stats.leaves_scanned == tree::leaf_count(nodes, visited) % 0x1_0000_0000
        &&& stats.blocks_scanned == tree::block_count(nodes, visited) % 0x1_0000_0000
        &&& forall|k: int| 0 <= k < visited.len() ==> 0 <= #[trigger] visited[k] < nodes.len()
        &&& forall|i: int|
            0 <= i < K && #[trigger] n.places[i] != -1 ==> tree::seen_in(
                nodes,
                visited,
                n.places[i],
            )
        &&& self.partitions_counted(stats, query, allowed)
        &&& stats.partitions_visited == entered.len()
        &&& forall|k: int|
            0 <= k < entered.len() ==> self.is_entry(allowed, #[trigger] entered[k])
                && visited.contains(entered[k])
        &&& forall|i: int| #[trigger]
            self.takes_part(allowed, i) ==> entered.contains(self.root(i))
                || self.partition_distance(query, i) >= n.limit() || self.ended_early(n, allowed)
        &&& tree::linked(nodes, entered, visited)
        &&& self.exact_for(allowed) ==> {
            &&& entered.no_duplicates()
            &&& visited.no_duplicates()
            &&& tree::closed(nodes, query, visited, n.limit())
        }
    }

    /// What is known of a search that is over.
    #[verifier::rlimit(40)]
    #[verifier::spinoff_prover]
    proof fn lemma_counted(self, st: Search, query: Seq<i16>, allowed: Option<Set<u32>>)
        requires
            st.in_order(
                self.contents.forest.nodes@,
                self.contents.forest.lanes@,
                query,
                self.scope(allowed),
            ),
            self.partitions_counted(st.stats, query, allowed),
            self.walk_is_over(st, query, allowed),
            st.trail() == self.trail(query, allowed, false),
        ensures
            self.counts(st.stats, st.best(), st.entered@, st.visited@, query, allowed),
    {
        reveal(SpecialistIndex::walk_so_far);
        reveal(SpecialistIndex::counts);
        reveal(SpecialistIndex::is_entry);
        reveal(SpecialistIndex::trail);
        self.law_search_stops_in_time(query, allowed, false);
        let seen = choose|seen: Set<int>|
            #[trigger] self.walk_so_far(st, query, allowed, seen) && self.is_enough(
                st.best(),
                allowed,
                seen,
            );
        assert forall|k: int| 0 <= k < st.entered@.len() implies self.is_entry(
            allowed,
            #[trigger] st.entered@[k],
        ) && st.visited@.contains(st.entered@[k]) by {
            let i = choose|i: int| seen.contains(i) && #[trigger] self.root(i) == st.entered@[k];
            assert(self.participants(allowed).contains(i));
            assert(self.takes_part(allowed, i));
        }
        assert forall|i: int| #[trigger] self.takes_part(allowed, i) implies st.entered@.contains(
            self.root(i),
        ) || self.partition_distance(query, i) >= st.best().limit() || self.ended_early(
            st.best(),
            allowed,
        ) by {
            if !self.ended_early(st.best(), allowed) {
                assert(self.participants(allowed).contains(i));
                assert(seen.contains(i));
            }
        }
    }

    /// The number of fraudulent references among the query's nearest neighbours.
    pub fn predict_fraud_count(&self, query: &QueryVector) -> (r: u8)
        requires
            self.wf(),
        ensures
            exists|n: Neighbours|
                #[trigger] self.decides(n, query@, None) && r == n.frauds() % 256,
    {
        let label_defer: bool = self.settings.label_defer && self.settings.mode
            != SearchMode::Exact;
        let st = self.run(query, None, label_defer);
        assert(self.decides(st.best(), query@, None));
        st.frauds()
    }

    /// The number of fraudulent references among the query's nearest neighbours in the permitted
    /// partitions, with what was counted and the keys of the neighbours' partitions.
    pub fn predict_fraud_count_inner(
        &self,
        query: &QueryVector,
        allowed: Option<&PartitionSet>,
    ) -> (r: (u8, SearchStats, [u32; K]))
        requires
            self.wf(),
        ensures
            exists|n: Neighbours, entered: Seq<int>, visited: Seq<int>|
                {
                    &&& #[trigger] self.counts(r.1, n, entered, visited, query@, keys_of(allowed))
                    &&& self.finds(n, query@, keys_of(allowed))
                    &&& r.0 == n.frauds() % 256
                    &&& r.2@ == n.keys
                },
    {
        let st = self.run(query, allowed, false);
        proof {
            self.lemma_counted(st, query@, keys_of(allowed));
            assert(self.finds(st.best(), query@, keys_of(allowed)));
        }
        let r = (st.frauds(), st.stats, st.keys);
        assert(self.counts(
            r.1,
            st.best(),
            st.entered@,
            st.visited@,
            query@,
            keys_of(allowed),
        ));
        r
    }

    /// The number of fraudulent references among the query's nearest neighbours, with what was
    /// counted.
    pub fn predict_fraud_count_with_stats(&self, query: &QueryVector) -> (r: (u8, SearchStats))
        requires
            self.wf(),
        ensures
            exists|n: Neighbours, entered: Seq<int>, visited: Seq<int>|
                {
                    &&& #[trigger] self.counts(r.1, n, entered, visited, query@, None)
                    &&& self.finds(n, query@, None)
                    &&& r.0 == n.frauds() % 256
                },
    {
        let inner = self.predict_fraud_count_inner(query, None);
        let r = (inner.0, inner.1);
        proof {
            let a: Option<Set<u32>> = None;
            let (n, entered, visited) = choose|n: Neighbours, entered: Seq<int>, visited: Seq<int>|
                {
                    &&& #[trigger] self.counts(inner.1, n, entered, visited, query@, a)
                    &&& self.finds(n, query@, a)
                    &&& inner.0 == n.frauds() % 256
                    &&& inner.2@ == n.keys
                };
            assert(self.counts(r.1, n, entered, visited, query@, a));
        }
        r
    }

    /// The number of fraudulent references among the query's nearest neighbours, with the keys of
    /// their partitions.
    pub fn predict_fraud_count_with_partitions(&self, query: &QueryVector) -> (r: (
        u8,
        PartitionSet,
    ))
        requires
            self.wf(),
        ensures
            exists|n: Neighbours|
                {
                    &&& #[trigger] self.finds(n, query@, None)
                    &&& r.0 == n.frauds() % 256
                    &&& r.1@ == partition_set::small_keys(n.keys)
                },
    {
        let (count, _, part_keys) = self.predict_fraud_count_inner(query, None);
        (count, PartitionSet::from_top_keys(&part_keys))
    }

    /// The number of fraudulent references among the query's nearest neighbours in the permitted
    /// partitions.
    pub fn predict_fraud_count_in_partitions(
        &self,
        query: &QueryVector,
        allowed: &PartitionSet,
    ) -> (r: u8)
        requires
            self.wf(),
        ensures
            exists|n: Neighbours|
                #[trigger] self.finds(n, query@, Some(allowed@)) && r == n.frauds() % 256,
    {
        let (count, _, _) = self.predict_fraud_count_inner(query, Some(allowed));
        count
    }

    /// The number of fraudulent references among the query's nearest neighbours in the permitted
    /// partitions, with what was counted.
    pub fn predict_fraud_count_in_partitions_with_stats(
        &self,
        query: &QueryVector,
        allowed: &PartitionSet,
    ) -> (r: (u8, SearchStats))
        requires
            self.wf(),
        ensures
            exists|n: Neighbours, entered: Seq<int>, visited: Seq<int>|
                {
                    &&& #[trigger] self.counts(r.1, n, entered, visited, query@, Some(allowed@))
                    &&& self.finds(n, query@, Some(allowed@))
                    &&& r.0 == n.frauds() % 256
                },
    {
        let inner = self.predict_fraud_count_inner(query, Some(allowed));
        let r = (inner.0, inner.1);
        proof {
            let a: Option<Set<u32>> = Some(allowed@);
            let (n, entered, visited) = choose|n: Neighbours, entered: Seq<int>, visited: Seq<int>|
                {
                    &&& #[trigger] self.counts(inner.1, n, entered, visited, query@, a)
                    &&& self.finds(n, query@, a)
                    &&& inner.0 == n.frauds() % 256
                    &&& inner.2@ == n.keys
                };
            assert(self.counts(r.1, n, entered, visited, query@, a));
        }
        r
    }
}

/// A search that is restricted to some partitions looks among their references only.
pub proof fn law_restricted_search_stays_in_its_partitions(
    index: SpecialistIndex,
    n: Neighbours,
    query: Seq<i16>,
    allowed: Set<u32>,
    i: int,
)
    requires
        index.finds(n, query, Some(allowed)),
        0 <= i < K,
        n.places[i] != -1,
    ensures
        exists|k: int|
            0 <= k < index.contents.partitions@.len() && allowed.contains(
                index.contents.partitions@[k].key,
            ) && #[trigger] index.below(k).contains(n.places[i]),
{
    assert(n.candidate_holds(
        i,
        query,
        index.contents.forest.lanes@,
        index.scope(Some(allowed)),
    ));
    let k = choose|k: int|
        index.participants(Some(allowed)).contains(k) && #[trigger] index.below(k).contains(
            n.places[i],
        );
    assert(index.takes_part(Some(allowed), k));
}

/// A search leaves out a partition whose box is nearer than one of its candidates only where it is
/// neither exact nor restricted, a positive threshold is set, and all its candidates are nearer than
/// that.
pub proof fn law_partitions_are_left_out_only_below_the_setting(
    index: SpecialistIndex,
    stats: SearchStats,
    n: Neighbours,
    entered: Seq<int>,
    visited: Seq<int>,
    query: Seq<i16>,
    allowed: Option<Set<u32>>,
    i: int,
)
    requires
        index.counts(stats, n, entered, visited, query, allowed),
        index.finds(n, query, allowed),
        0 <= i < index.contents.partitions@.len(),
        index.takes_part(allowed, i),
        !entered.contains(index.contents.partitions@[i].root as int),
        index.partition_distance(query, i) < n.limit(),
    ensures
        allowed is None,
        index.settings.mode != SearchMode::Exact,
        0 < index.settings.early_exit_threshold,
        forall|k: int| 0 <= k < K ==> #[trigger] n.dists[k] < index.settings.early_exit_threshold,
{
    reveal(SpecialistIndex::counts);
}

/// Once all its candidates are nearer than the positive threshold that is set, a search that is
/// neither exact nor restricted enters no other partition.
pub proof fn law_search_stops_at_the_setting(
    index: SpecialistIndex,
    query: Seq<i16>,
    defer: bool,
    k: int,
)
    requires
        index.settings.mode != SearchMode::Exact,
        0 < index.settings.early_exit_threshold,
        0 <= k < index.outward(query, None, defer).limits.len(),
        index.outward(query, None, defer).limits[k] < index.settings.early_exit_threshold,
    ensures
        k == index.outward(query, None, defer).entered.len() - 1,
{
    index.law_search_stops_in_time(query, None, defer);
}

/// A restricted search never ends early.
pub proof fn law_restricted_search_does_not_end_early(
    index: SpecialistIndex,
    n: Neighbours,
    allowed: Set<u32>,
)
    ensures
        !index.ended_early(n, Some(allowed)),
{
}

} // verus!
