//! The way of a search through the partitions.

use vstd::prelude::*;

use crate::index::layout::Partition;
use crate::index::predict;
use crate::index::sort;
use crate::index::specialist;
use crate::index::specialist::SearchMode;
use crate::index::specialist::SpecialistIndex;
use crate::index::trail;
use crate::index::trail::Trail;

verus! {

impl SpecialistIndex {
    /// The search enters the tree of partition `i`.
    pub open spec fn entered(self, query: Seq<i16>, i: int, bound: int, t: Trail) -> Trail {
        trail::entered_at(
            self.contents.forest.nodes@,
            self.contents.forest.lanes@,
            query,
            self.contents.partitions@[i].key,
            self.root(i),
            bound,
            t,
        )
    }

    /// The first `count` partitions are searched in turn, without regard to their boxes, where their
    /// keys are permitted.
    pub open spec fn in_turn(
        self,
        query: Seq<i16>,
        allowed: Option<Set<u32>>,
        t: Trail,
        count: nat,
    ) -> Trail
        decreases count,
    {
        if count == 0 {
            t
        } else {
            let u = self.in_turn(query, allowed, t, (count - 1) as nat);
            if predict::permitted(allowed, self.contents.partitions@[count - 1].key) {
                self.entered(query, count - 1, 0, u)
            } else {
                u
            }
        }
    }

    /// Partition `i` takes part and is not the query's own, where that is searched first.
    pub open spec fn is_other(self, query: Seq<i16>, allowed: Option<Set<u32>>, i: int) -> bool {
        &&& self.takes_part(allowed, i)
        &&& !(self.settings.mode == SearchMode::KeyFirst && self.contents.partitions@[i].key
            == self.key_of(query))
    }

    /// Partition `i` comes before partition `j`: its box is nearer, or as near and its key is smaller.
    pub open spec fn comes_before(self, query: Seq<i16>, i: int, j: int) -> bool {
        let x = self.partition_distance(query, i);
        let y = self.partition_distance(query, j);
        x < y || (x == y && self.contents.partitions@[i].key < self.contents.partitions@[j].key)
    }

    /// The partitions stand in the order in which they are searched: all those whose boxes are nearer
    /// than `limit`, but for the query's own where that is searched first.
    pub open spec fn is_order(
        self,
        query: Seq<i16>,
        allowed: Option<Set<u32>>,
        limit: int,
        order: Seq<int>,
    ) -> bool {
        &&& forall|k: int, l: int|
            0 <= k < l < order.len() ==> self.comes_before(
                query,
                #[trigger] order[k],
                #[trigger] order[l],
            )
        &&& forall|i: int| #[trigger]
            order.contains(i) <==> self.is_other(query, allowed, i) && self.partition_distance(
                query,
                i,
            ) < limit
    }

    /// The order in which partitions are searched whose boxes are nearer than `limit`.
    pub open spec fn order(
        self,
        query: Seq<i16>,
        allowed: Option<Set<u32>>,
        limit: int,
    ) -> Seq<int> {
        choose|order: Seq<int>| self.is_order(query, allowed, limit, order)
    }

    /// The partitions from `from` on are searched whose boxes are nearer than the candidates, until
    /// all candidates are nearer than the threshold.
    pub open spec fn swept(
        self,
        query: Seq<i16>,
        allowed: Option<Set<u32>>,
        order: Seq<int>,
        from: int,
        t: Trail,
    ) -> Trail
        decreases order.len() - from,
    {
        if from < 0 || from >= order.len() {
            t
        } else {
            let bound = self.partition_distance(query, order[from]);
            if bound >= t.found.limit() {
                self.swept(query, allowed, order, from + 1, t)
            } else {
                let u = self.entered(query, order[from], bound, t);
                if self.ended_early(u.found, allowed) {
                    u
                } else {
                    self.swept(query, allowed, order, from + 1, u)
                }
            }
        }
    }

    /// The query's own partition is searched, where it is searched first.
    pub open spec fn opened(
        self,
        query: Seq<i16>,
        allowed: Option<Set<u32>>,
        t: Trail,
    ) -> Trail {
        if self.key_partition_first(query, allowed) {
            let own = specialist::partition_of(self.contents.partitions@, self.key_of(query));
            self.entered(query, own, self.partition_distance(query, own), t)
        } else {
            t
        }
    }

    /// The way of a search up to where it takes back what it has set aside: through all partitions in
    /// turn, or into the query's own partition and then, unless it ends there, into the others, the
    /// nearest box first.
    pub open spec fn outward(
        self,
        query: Seq<i16>,
        allowed: Option<Set<u32>>,
        defer: bool,
    ) -> Trail {
        let t = Trail::begun(defer);
        if self.settings.mode == SearchMode::Exact {
            self.in_turn(query, allowed, t, self.contents.partitions@.len())
        } else {
            let u = self.opened(query, allowed, t);
            if self.ended_early(u.found, allowed) {
                u
            } else {
                self.swept(
                    query,
                    allowed,
                    self.order(query, allowed, u.found.limit()),
                    0,
                    u,
                )
            }
        }
    }

    /// The way of a search; `defer` says whether it may set subtrees aside.
    #[verifier::opaque]
    pub open spec fn trail(self, query: Seq<i16>, allowed: Option<Set<u32>>, defer: bool) -> Trail {
        let t = self.outward(query, allowed, defer);
        if defer {
            trail::replayed(
                self.contents.forest.nodes@,
                self.contents.forest.lanes@,
                query,
                t,
            )
        } else {
            t
        }
    }

    /// There is one order at most.
    pub proof fn lemma_one_order(
        self,
        query: Seq<i16>,
        allowed: Option<Set<u32>>,
        limit: int,
        a: Seq<int>,
        b: Seq<int>,
    )
        requires
            self.is_order(query, allowed, limit, a),
            self.is_order(query, allowed, limit, b),
        ensures
            a == b,
    {
        self.lemma_same_start(query, allowed, limit, a, b, a.len());
        self.lemma_same_start(query, allowed, limit, b, a, b.len());
        assert(a =~= b);
    }

    proof fn lemma_same_start(
        self,
        query: Seq<i16>,
        allowed: Option<Set<u32>>,
        limit: int,
        a: Seq<int>,
        b: Seq<int>,
        n: nat,
    )
        requires
            self.is_order(query, allowed, limit, a),
            self.is_order(query, allowed, limit, b),
            n <= a.len(),
        ensures
            n <= b.len(),
            forall|k: int| 0 <= k < n ==> a[k] == b[k],
        decreases n,
    {
        if n > 0 {
            let m = n - 1;
            self.lemma_same_start(query, allowed, limit, a, b, m as nat);
            assert(a.contains(a[m]));
            assert(b.contains(a[m]));
            let x = choose|x: int| 0 <= x < b.len() && b[x] == a[m];
            if x < m {
                assert(a[x] == b[x]);
                assert(self.comes_before(query, a[x], a[m]));
            }
            if x > m {
                assert(b.contains(b[m]));
                assert(a.contains(b[m]));
                let y = choose|y: int| 0 <= y < a.len() && a[y] == b[m];
                assert(self.comes_before(query, b[m], b[x]));
                if y < m {
                    assert(a[y] == b[y]);
                    assert(self.comes_before(query, b[y], b[m]));
                } else if y > m {
                    assert(self.comes_before(query, a[m], a[y]));
                }
            }
        }
    }
}

impl SpecialistIndex {
    /// The search stopped in time: it entered no tree after one that left all candidates nearer than
    /// the threshold.
    pub open spec fn in_time(self, t: Trail, allowed: Option<Set<u32>>) -> bool {
        &&& t.limits.len() == t.entered.len()
        &&& t.limits.len() > 0 ==> t.limits.last() == t.found.limit()
        &&& forall|k: int|
            0 <= k < t.limits.len() - 1 ==> !(0 < self.threshold(allowed) && #[trigger] t.limits[k]
                < self.threshold(allowed))
    }

    proof fn lemma_enters_in_time(
        self,
        query: Seq<i16>,
        allowed: Option<Set<u32>>,
        i: int,
        bound: int,
        t: Trail,
    )
        requires
            self.in_time(t, allowed),
            !self.ended_early(t.found, allowed),
        ensures
            self.in_time(self.entered(query, i, bound, t), allowed),
    {
        let u = self.entered(query, i, bound, t);
        trail::lemma_entered_at(
            self.contents.forest.nodes@,
            self.contents.forest.lanes@,
            query,
            self.contents.partitions@[i].key,
            self.root(i),
            bound,
            t,
        );
        assert forall|k: int| 0 <= k < u.limits.len() - 1 implies !(0 < self.threshold(allowed)
            && #[trigger] u.limits[k] < self.threshold(allowed)) by {
            assert(u.limits[k] == t.limits[k]);
            if k == t.limits.len() - 1 {
                assert(t.limits[k] == t.found.limit());
            }
        }
    }

    proof fn lemma_in_turn_in_time(
        self,
        query: Seq<i16>,
        allowed: Option<Set<u32>>,
        t: Trail,
        count: nat,
    )
        requires
            self.settings.mode == SearchMode::Exact,
            self.in_time(t, allowed),
        ensures
            self.in_time(self.in_turn(query, allowed, t, count), allowed),
        decreases count,
    {
        if count > 0 {
            let fewer = (count - 1) as nat;
            self.lemma_in_turn_in_time(query, allowed, t, fewer);
            self.lemma_enters_in_time(
                query,
                allowed,
                count - 1,
                0,
                self.in_turn(query, allowed, t, fewer),
            );
        }
    }

    proof fn lemma_swept_in_time(
        self,
        query: Seq<i16>,
        allowed: Option<Set<u32>>,
        order: Seq<int>,
        from: int,
        t: Trail,
    )
        requires
            self.in_time(t, allowed),
            !self.ended_early(t.found, allowed),
        ensures
            self.in_time(self.swept(query, allowed, order, from, t), allowed),
        decreases order.len() - from,
    {
        if 0 <= from < order.len() {
            let bound = self.partition_distance(query, order[from]);
            if bound >= t.found.limit() {
                self.lemma_swept_in_time(query, allowed, order, from + 1, t);
            } else {
                let u = self.entered(query, order[from], bound, t);
                self.lemma_enters_in_time(query, allowed, order[from], bound, t);
                if !self.ended_early(u.found, allowed) {
                    self.lemma_swept_in_time(query, allowed, order, from + 1, u);
                }
            }
        }
    }

    /// A search stops in time: once all candidates are nearer than a positive threshold it enters no
    /// other partition, whether it sets subtrees aside or not.
    pub proof fn law_search_stops_in_time(
        self,
        query: Seq<i16>,
        allowed: Option<Set<u32>>,
        defer: bool,
    )
        ensures
            self.in_time(self.outward(query, allowed, defer), allowed),
    {
        let t = Trail::begun(defer);
        assert(!self.ended_early(t.found, allowed));
        if self.settings.mode == SearchMode::Exact {
            self.lemma_in_turn_in_time(query, allowed, t, self.contents.partitions@.len());
        } else {
            let u = self.opened(query, allowed, t);
            if self.key_partition_first(query, allowed) {
                let own = specialist::partition_of(self.contents.partitions@, self.key_of(query));
                self.lemma_enters_in_time(
                    query,
                    allowed,
                    own,
                    self.partition_distance(query, own),
                    t,
                );
            }
            if !self.ended_early(u.found, allowed) {
                self.lemma_swept_in_time(
                    query,
                    allowed,
                    self.order(query, allowed, u.found.limit()),
                    0,
                    u,
                );
            }
        }
    }
}

/// Entries with one number, of numbered partitions, stand in the order of the partitions' keys.
spec fn keys_rise(parts: Seq<Partition>, entries: Seq<(i64, usize)>) -> bool {
    forall|k: int, l: int|
        0 <= k < l < entries.len() && entries[k].0 == entries[l].0 ==> parts[(
        #[trigger] entries[k]).1 as int].key < parts[(#[trigger] entries[l]).1 as int].key
}

/// The same of the entries with one number alone.
spec fn ties_rise(parts: Seq<Partition>, ties: Seq<(i64, usize)>) -> bool {
    forall|k: int, l: int|
        0 <= k < l < ties.len() ==> parts[(#[trigger] ties[k]).1 as int].key < parts[(
        #[trigger] ties[l]).1 as int].key
}

proof fn lemma_ties(entries: Seq<(i64, usize)>, number: i64)
    ensures
        forall|k: int|
            0 <= k < entries.len() && entries[k].0 == number ==> sort::ties(
                entries,
                number,
            ).contains(#[trigger] entries[k]),
        forall|k: int|
            0 <= k < sort::ties(entries, number).len() ==> entries.contains(
                #[trigger] sort::ties(entries, number)[k],
            ) && sort::ties(entries, number)[k].0 == number,
    decreases entries.len(),
{
    if entries.len() > 0 {
        let front = entries.drop_last();
        lemma_ties(front, number);
        let (small, all) = (sort::ties(front, number), sort::ties(entries, number));
        assert forall|k: int| 0 <= k < entries.len() && entries[k].0 == number implies all.contains(
            #[trigger] entries[k],
        ) by {
            if k < front.len() {
                assert(front[k] == entries[k]);
                let j = choose|j: int| 0 <= j < small.len() && small[j] == entries[k];
                assert(all[j] == entries[k]);
            } else {
                assert(all[all.len() - 1] == entries[k]);
            }
        }
        assert forall|k: int| 0 <= k < all.len() implies entries.contains(#[trigger] all[k])
            && all[k].0 == number by {
            if k < small.len() {
                assert(all[k] == small[k]);
                let j = choose|j: int| 0 <= j < front.len() && front[j] == small[k];
                assert(entries[j] == all[k]);
            } else {
                assert(entries[entries.len() - 1] == all[k]);
            }
        }
    }
}

proof fn lemma_ties_rise(parts: Seq<Partition>, entries: Seq<(i64, usize)>, number: i64)
    requires
        keys_rise(parts, entries),
    ensures
        ties_rise(parts, sort::ties(entries, number)),
    decreases entries.len(),
{
    if entries.len() > 0 {
        let front = entries.drop_last();
        assert forall|k: int, l: int|
            0 <= k < l < front.len() && front[k].0 == front[l].0 implies parts[(
        #[trigger] front[k]).1 as int].key < parts[(#[trigger] front[l]).1 as int].key by {
            assert(front[k] == entries[k] && front[l] == entries[l]);
        }
        lemma_ties_rise(parts, front, number);
        lemma_ties(front, number);
        let (small, all) = (sort::ties(front, number), sort::ties(entries, number));
        assert forall|k: int, l: int| 0 <= k < l < all.len() implies parts[(
        #[trigger] all[k]).1 as int].key < parts[(#[trigger] all[l]).1 as int].key by {
            if l < small.len() {
                assert(all[k] == small[k] && all[l] == small[l]);
            } else {
                assert(all[k] == small[k]);
                let j = choose|j: int| 0 <= j < front.len() && front[j] == small[k];
                assert(entries[j] == all[k]);
                assert(entries[entries.len() - 1] == all[l]);
            }
        }
    }
}

proof fn lemma_keys_rise(parts: Seq<Partition>, entries: Seq<(i64, usize)>)
    requires
        forall|number: i64| #[trigger] ties_rise(parts, sort::ties(entries, number)),
    ensures
        keys_rise(parts, entries),
    decreases entries.len(),
{
    if entries.len() > 0 {
        let front = entries.drop_last();
        assert forall|number: i64| #[trigger] ties_rise(parts, sort::ties(front, number)) by {
            let (small, all) = (sort::ties(front, number), sort::ties(entries, number));
            assert(ties_rise(parts, all));
            assert forall|k: int, l: int| 0 <= k < l < small.len() implies parts[(
            #[trigger] small[k]).1 as int].key < parts[(#[trigger] small[l]).1 as int].key by {
                assert(small[k] == all[k] && small[l] == all[l]);
            }
        }
        lemma_keys_rise(parts, front);
        assert forall|k: int, l: int|
            0 <= k < l < entries.len() && entries[k].0 == entries[l].0 implies parts[(
        #[trigger] entries[k]).1 as int].key < parts[(#[trigger] entries[l]).1 as int].key by {
            if l < front.len() {
                assert(front[k] == entries[k] && front[l] == entries[l]);
            } else {
                let number = entries[l].0;
                let (small, all) = (sort::ties(front, number), sort::ties(entries, number));
                lemma_ties(front, number);
                assert(front[k] == entries[k]);
                let j = choose|j: int| 0 <= j < small.len() && small[j] == front[k];
                assert(ties_rise(parts, all));
                assert(all[j] == entries[k] && all[all.len() - 1] == entries[l]);
            }
        }
    }
}

/// Entries that were collected in the order of their keys and sorted by their boxes' distances give
/// the order of the search.
pub(crate) proof fn lemma_sorted_is_order(
    index: SpecialistIndex,
    query: Seq<i16>,
    allowed: Option<Set<u32>>,
    limit: int,
    before: Seq<(i64, usize)>,
    after: Seq<(i64, usize)>,
    order: Seq<int>,
)
    requires
        forall|k: int, l: int|
            0 <= k < l < before.len() ==> index.contents.partitions@[(
            #[trigger] before[k]).1 as int].key < index.contents.partitions@[(
            #[trigger] before[l]).1 as int].key,
        forall|k: int|
            0 <= k < before.len() ==> {
                let i = (#[trigger] before[k]).1 as int;
                &&& index.is_other(query, allowed, i)
                &&& before[k].0 == index.partition_distance(query, i)
                &&& before[k].0 < limit
            },
        forall|i: int|
            index.is_other(query, allowed, i) && index.partition_distance(query, i) < limit
                ==> exists|k: int| 0 <= k < before.len() && (#[trigger] before[k]).1 == i,
        sort::sorted(after),
        sort::ties_stay(before, after),
        before.to_multiset() == after.to_multiset(),
        order == Seq::new(after.len(), |k: int| after[k].1 as int),
    ensures
        index.is_order(query, allowed, limit, order),
        index.order(query, allowed, limit) == order,
{
    let parts = index.contents.partitions@;
    before.to_multiset_ensures();
    after.to_multiset_ensures();
    assert(keys_rise(parts, before));
    assert forall|number: i64| #[trigger] ties_rise(parts, sort::ties(after, number)) by {
        lemma_ties_rise(parts, before, number);
        assert(sort::ties(after, number) == sort::ties(before, number));
    }
    lemma_keys_rise(parts, after);
    assert forall|k: int| 0 <= k < after.len() implies before.contains(#[trigger] after[k]) by {
        assert(after.contains(after[k]));
        assert(after.to_multiset().count(after[k]) > 0);
    }
    assert forall|k: int, l: int| 0 <= k < l < order.len() implies index.comes_before(
        query,
        #[trigger] order[k],
        #[trigger] order[l],
    ) by {
        assert(before.contains(after[k]) && before.contains(after[l]));
        let x = choose|x: int| 0 <= x < before.len() && before[x] == after[k];
        let y = choose|y: int| 0 <= y < before.len() && before[y] == after[l];
        assert(before[x] == after[k] && before[y] == after[l]);
        assert(after[k].0 <= after[l].0);
    }
    assert forall|i: int| #[trigger]
        order.contains(i) <==> index.is_other(query, allowed, i) && index.partition_distance(
            query,
            i,
        ) < limit by {
        if order.contains(i) {
            let k = choose|k: int| 0 <= k < order.len() && order[k] == i;
            assert(before.contains(after[k]));
            let x = choose|x: int| 0 <= x < before.len() && before[x] == after[k];
            assert(before[x] == after[k]);
        }
        if index.is_other(query, allowed, i) && index.partition_distance(query, i) < limit {
            let k = choose|k: int| 0 <= k < before.len() && (#[trigger] before[k]).1 == i;
            assert(before.contains(before[k]));
            assert(before.to_multiset().count(before[k]) > 0);
            assert(after.contains(before[k]));
            let m = choose|m: int| 0 <= m < after.len() && after[m] == before[k];
            assert(order[m] == i);
        }
    }
    assert(index.is_order(query, allowed, limit, order));
    index.lemma_one_order(
        query,
        allowed,
        limit,
        order,
        index.order(query, allowed, limit),
    );
}

} // verus!
