//! How references and queries are dealt out to partitions.

use vstd::arithmetic::power2::lemma_pow2_unfold;
use vstd::arithmetic::power2::lemma_pow2_strictly_increases;
use vstd::arithmetic::power2::pow2;
use vstd::prelude::*;
use vstd::string::StringExecFns;

use crate::index::build;
use crate::index::build::Reference;
use crate::index::sort;
use crate::text;
use crate::QueryVector;
use crate::PACKED_DIMS;

verus! {

/// The number under which schemes that cut amounts and week days are stored.
pub const CUTS_SCHEME: i16 = 0;

/// The number under which schemes that walk a decision tree are stored.
pub const TREE_SCHEME: i16 = 1;

/// The most levels a decision tree can have.
pub const MAX_TREE_DEPTH: u32 = 10;

/// A question of a decision tree: is the coordinate over the threshold? One that is not enabled is
/// answered with no.
#[derive(Clone, Copy, Debug, PartialEq, Eq, Structural)]
pub struct TreePredicate {
    pub dim: u8,
    pub threshold: i16,
    pub enabled: bool,
}

/// A question that was learned from queries.
#[derive(Clone, Copy, Debug, PartialEq, Eq, Structural)]
pub struct LearnedPredicate {
    pub dim: u8,
    pub threshold: i16,
}

/// How partition keys come about: from cuts through amounts and week days, or, where `tree_depth`
/// is not 0, from a walk down a decision tree.
#[derive(Clone, Debug)]
pub struct PartitionScheme {
    pub name: String,
    pub amount_cut_count: usize,
    pub dow_cut_count: usize,
    pub tree_depth: u32,
    pub tree_predicates: Vec<TreePredicate>,
}

/// How many cuts in front are below the value.
pub open spec fn cuts_below(value: i16, cuts: Seq<i16>) -> nat
    decreases cuts.len(),
{
    if cuts.len() == 0 || value <= cuts[0] {
        0
    } else {
        1 + cuts_below(value, cuts.drop_first())
    }
}

/// `w` bits, and no fewer, are needed to number the buckets; at least one is taken.
pub open spec fn is_bit_width(w: nat, buckets: int) -> bool {
    &&& w >= 1
    &&& buckets <= pow2(w)
    &&& w > 1 ==> pow2((w - 1) as nat) < buckets
}

/// The bits that are needed to number the buckets.
pub open spec fn width_of(buckets: int) -> nat {
    choose|w: nat| is_bit_width(w, buckets)
}

/// The key from cuts through amount and week day.
pub open spec fn cut_key(vector: Seq<i16>, amount_cuts: Seq<i16>, dow_cuts: Seq<i16>) -> nat {
    let amount = cuts_below(vector[0], amount_cuts);
    let dow = cuts_below(vector[4], dow_cuts);
    (amount + dow * pow2(width_of((amount_cuts.len() + 1) as int))) % 0x1_0000_0000
}

/// The answer to question `node` of a decision tree; a question that is missing is answered with no.
pub open spec fn answer(vector: Seq<i16>, predicates: Seq<TreePredicate>, node: int) -> nat {
    if 0 <= node < predicates.len() && predicates[node].enabled && predicates[node].dim
        < PACKED_DIMS && vector[predicates[node].dim as int] > predicates[node].threshold {
        1
    } else {
        0
    }
}

/// The question after the first `depth` ones on the walk down the tree, whose questions stand level
/// by level: 0 is the root, and the children of `n` are `2n + 1` and `2n + 2`.
pub open spec fn walk(vector: Seq<i16>, predicates: Seq<TreePredicate>, depth: nat) -> int
    decreases depth,
{
    if depth == 0 {
        0
    } else {
        let node = walk(vector, predicates, (depth - 1) as nat);
        2 * node + 1 + answer(vector, predicates, node)
    }
}

/// The key from a walk down a decision tree: the leaf where it ends, counted from the left.
pub open spec fn tree_key(vector: Seq<i16>, predicates: Seq<TreePredicate>, depth: nat) -> int {
    walk(vector, predicates, depth) - (pow2(depth) - 1)
}

pub proof fn lemma_pow2_grows(e: nat, f: nat)
    requires
        e <= f,
    ensures
        pow2(e) <= pow2(f),
{
    if e < f {
        lemma_pow2_strictly_increases(e, f);
    }
}

/// The number of buckets and their width are related as they should be.
pub proof fn lemma_width_unique(v: nat, w: nat, buckets: int)
    requires
        is_bit_width(v, buckets),
        is_bit_width(w, buckets),
    ensures
        v == w,
{
    if v < w {
        lemma_pow2_grows(v, (w - 1) as nat);
    } else if w < v {
        lemma_pow2_grows(w, (v - 1) as nat);
    }
}

proof fn lemma_cuts_below(value: i16, cuts: Seq<i16>, n: nat)
    requires
        n <= cuts.len(),
        forall|i: int| 0 <= i < n ==> value > #[trigger] cuts[i],
        n < cuts.len() ==> value <= cuts[n as int],
    ensures
        cuts_below(value, cuts) == n,
    decreases n,
{
    if n > 0 {
        assert(value > cuts[0]);
        let rest = cuts.drop_first();
        assert forall|i: int| 0 <= i < n - 1 implies value > #[trigger] rest[i] by {
            assert(rest[i] == cuts[i + 1]);
        }
        lemma_cuts_below(value, rest, (n - 1) as nat);
    }
}

pub proof fn lemma_cuts_below_bounded(value: i16, cuts: Seq<i16>)
    ensures
        cuts_below(value, cuts) <= cuts.len(),
    decreases cuts.len(),
{
    if cuts.len() > 0 && value > cuts[0] {
        lemma_cuts_below_bounded(value, cuts.drop_first());
    }
}

/// How many cuts in front are below the value.
pub fn bucket(value: i16, cuts: &[i16]) -> (r: u32)
    requires
        cuts@.len() <= u32::MAX,
    ensures
        r == cuts_below(value, cuts@),
{
    let mut n: usize = 0;
    while n < cuts.len() && value > cuts[n]
        invariant
            n <= cuts@.len(),
            forall|i: int| 0 <= i < n ==> value > #[trigger] cuts@[i],
        decreases cuts@.len() - n,
    {
        n = n + 1;
    }
    proof {
        lemma_cuts_below(value, cuts@, n as nat);
    }
    n as u32
}

/// The bits that are needed to number the buckets, at least one.
pub fn bit_width(buckets: usize) -> (r: u32)
    ensures
        is_bit_width(r as nat, buckets as int),
        r == width_of(buckets as int),
        r <= 64,
{
    let mut w: u32 = 1;
    let mut power: u128 = 2;
    proof {
        vstd::arithmetic::power2::lemma2_to64();
    }
    while power < buckets as u128
        invariant
            1 <= w <= 64,
            power == pow2(w as nat),
            w > 1 ==> pow2((w - 1) as nat) < buckets,
            pow2(64) == 0x1_0000_0000_0000_0000,
        decreases 64 - w,
    {
        proof {
            if w >= 64 {
                assert(power == 0x1_0000_0000_0000_0000);
                assert(buckets as int <= 0x1_0000_0000_0000_0000int);
            }
            lemma_pow2_grows(w as nat, 64);
            lemma_pow2_unfold((w + 1) as nat);
        }
        power = power * 2;
        w = w + 1;
    }
    proof {
        lemma_width_unique(w as nat, width_of(buckets as int), buckets as int);
    }
    w
}

/// The key from cuts through amount and week day: the amount's bucket in the low bits, the week
/// day's above them.
pub fn compute_cut_key(vector: &QueryVector, amount_cuts: &[i16], dow_cuts: &[i16]) -> (r: u32)
    requires
        amount_cuts@.len() < 0x8000_0000,
        dow_cuts@.len() <= u32::MAX,
    ensures
        r == cut_key(vector@, amount_cuts@, dow_cuts@),
{
    let amount: u32 = bucket(vector[0], amount_cuts);
    let dow: u32 = bucket(vector[4], dow_cuts);
    let shift: u32 = bit_width(amount_cuts.len() + 1);
    let mut power: u64 = 1;
    let mut i: u32 = 0;
    proof {
        vstd::arithmetic::power2::lemma2_to64();
        lemma_cuts_below_bounded(vector@[0], amount_cuts@);
        lemma_cuts_below_bounded(vector@[4], dow_cuts@);
        if shift > 31 {
            lemma_pow2_grows(31, (shift - 1) as nat);
        }
    }
    while i < shift
        invariant
            i <= shift <= 31,
            power == pow2(i as nat),
            pow2(31) == 0x8000_0000,
        decreases shift - i,
    {
        proof {
            lemma_pow2_unfold((i + 1) as nat);
            lemma_pow2_grows((i + 1) as nat, 31);
        }
        power = power * 2;
        i = i + 1;
    }
    proof {
        lemma_pow2_grows(shift as nat, 31);
        assert(dow * power <= 0xffff_ffff * 0x8000_0000) by (nonlinear_arith)
            requires
                0 <= dow <= 0xffff_ffff,
                0 <= power <= 0x8000_0000,
        ;
        assert(dow as int * power as int == cuts_below(vector@[4], dow_cuts@) * pow2(
            width_of((amount_cuts@.len() + 1) as int),
        ));
    }
    ((amount as u64 + dow as u64 * power) % 0x1_0000_0000) as u32
}

/// Two vectors get the same key from the same cuts only if they fall into the same bucket of
/// amounts and the same bucket of week days.
pub proof fn law_cut_keys_tell_buckets_apart(
    a: Seq<i16>,
    b: Seq<i16>,
    amount_cuts: Seq<i16>,
    dow_cuts: Seq<i16>,
)
    requires
        (dow_cuts.len() + 1) * pow2(width_of((amount_cuts.len() + 1) as int)) <= 0x1_0000_0000,
        amount_cuts.len() <= usize::MAX,
        cut_key(a, amount_cuts, dow_cuts) == cut_key(b, amount_cuts, dow_cuts),
    ensures
        cuts_below(a[0], amount_cuts) == cuts_below(b[0], amount_cuts),
        cuts_below(a[4], dow_cuts) == cuts_below(b[4], dow_cuts),
{
    let buckets = (amount_cuts.len() + 1) as int;
    let w = width_of(buckets);
    lemma_width_exists(buckets);
    let p = pow2(w) as int;
    lemma_cuts_below_bounded(a[0], amount_cuts);
    lemma_cuts_below_bounded(b[0], amount_cuts);
    lemma_cuts_below_bounded(a[4], dow_cuts);
    lemma_cuts_below_bounded(b[4], dow_cuts);
    let (aa, ad) = (cuts_below(a[0], amount_cuts) as int, cuts_below(a[4], dow_cuts) as int);
    let (ba, bd) = (cuts_below(b[0], amount_cuts) as int, cuts_below(b[4], dow_cuts) as int);
    assert(aa < p && ba < p);
    let n = dow_cuts.len() as int;
    assert(ad * p + aa < (n + 1) * p) by (nonlinear_arith)
        requires
            0 <= ad <= n,
            0 <= aa < p,
    ;
    assert(bd * p + ba < (n + 1) * p) by (nonlinear_arith)
        requires
            0 <= bd <= n,
            0 <= ba < p,
    ;
    assert(0 <= ad * p && 0 <= bd * p) by (nonlinear_arith)
        requires
            0 <= ad,
            0 <= bd,
            0 <= p,
    ;
    assert(aa + ad * p == ba + bd * p);
    assert(ad == bd && aa == ba) by (nonlinear_arith)
        requires
            aa + ad * p == ba + bd * p,
            0 <= aa < p,
            0 <= ba < p,
    ;
}

pub proof fn lemma_width_exists(buckets: int)
    requires
        buckets <= usize::MAX + 1,
    ensures
        is_bit_width(width_of(buckets), buckets),
{
    vstd::arithmetic::power2::lemma2_to64();
    lemma_width_below(buckets, 64);
}

proof fn lemma_width_below(buckets: int, w: nat)
    requires
        w >= 1,
        buckets <= pow2(w),
    ensures
        exists|v: nat| is_bit_width(v, buckets),
    decreases w,
{
    if w > 1 && buckets <= pow2((w - 1) as nat) {
        lemma_width_below(buckets, (w - 1) as nat);
    } else {
        assert(is_bit_width(w, buckets));
    }
}

proof fn lemma_walk_in_level(vector: Seq<i16>, predicates: Seq<TreePredicate>, depth: nat)
    ensures
        pow2(depth) - 1 <= walk(vector, predicates, depth) < 2 * pow2(depth) - 1,
    decreases depth,
{
    vstd::arithmetic::power2::lemma2_to64();
    if depth > 0 {
        lemma_walk_in_level(vector, predicates, (depth - 1) as nat);
        lemma_pow2_unfold(depth);
    }
}

/// A walk down a decision tree of some depth ends at one of two to that power leaves.
pub proof fn law_tree_key_in_range(vector: Seq<i16>, predicates: Seq<TreePredicate>, depth: nat)
    ensures
        0 <= tree_key(vector, predicates, depth) < pow2(depth),
{
    lemma_walk_in_level(vector, predicates, depth);
}

/// The key from a walk down a decision tree.
pub fn compute_tree_key(
    vector: &QueryVector,
    depth: u32,
    predicates: &[TreePredicate],
) -> (r: u32)
    requires
        depth <= MAX_TREE_DEPTH,
    ensures
        r == tree_key(vector@, predicates@, depth as nat),
{
    let mut node: usize = 0;
    let mut first: usize = 0;
    let mut level: u32 = 0;
    proof {
        vstd::arithmetic::power2::lemma2_to64();
    }
    while level < depth
        invariant
            level <= depth <= MAX_TREE_DEPTH,
            node == walk(vector@, predicates@, level as nat),
            first == pow2(level as nat) - 1,
            pow2(10) == 1024,
        decreases depth - level,
    {
        proof {
            lemma_walk_in_level(vector@, predicates@, level as nat);
            lemma_pow2_unfold((level + 1) as nat);
            lemma_pow2_grows((level + 1) as nat, 10);
        }
        let over: bool = if node < predicates.len() {
            let predicate = predicates[node];
            predicate.enabled && (predicate.dim as usize) < PACKED_DIMS
                && vector[predicate.dim as usize] > predicate.threshold
        } else {
            false
        };
        node = 2 * node + 1 + if over {
            1
        } else {
            0
        };
        first = 2 * first + 1;
        level = level + 1;
    }
    proof {
        lemma_walk_in_level(vector@, predicates@, depth as nat);
        lemma_pow2_grows(depth as nat, 10);
    }
    (node - first) as u32
}

/// The coordinates of all references in one dimension.
pub open spec fn coordinates(references: Seq<Reference>, dim: int) -> Seq<i16> {
    references.map_values(|r: Reference| r.vector@[dim])
}

/// The numbers stand in order.
pub open spec fn ascending(s: Seq<i16>) -> bool {
    forall|i: int, j: int| 0 <= i <= j < s.len() ==> s[i] <= s[j]
}

/// Where cut `i` of `count` stands among `n` sorted values.
pub open spec fn cut_rank(i: int, n: int, count: int) -> int {
    let at = ((i + 1) * n) / (count + 1);
    if at < n - 1 {
        at
    } else {
        n - 1
    }
}

/// The cuts part the values into buckets of about one size: cut `i` is the value at its rank among
/// the sorted values. Without values all cuts are 0.
pub open spec fn are_quantiles(cuts: Seq<i16>, values: Seq<i16>, count: int) -> bool {
    &&& cuts.len() == count
    &&& if values.len() == 0 {
        forall|i: int| 0 <= i < count ==> #[trigger] cuts[i] == 0
    } else {
        exists|sorted: Seq<i16>|
            {
                &&& ascending(sorted)
                &&& #[trigger] sorted.to_multiset() == values.to_multiset()
                &&& forall|i: int|
                    0 <= i < count ==> #[trigger] cuts[i] == sorted[cut_rank(
                        i,
                        values.len() as int,
                        count,
                    )]
            }
    }
}

/// The first numbers of the entries.
pub open spec fn firsts(entries: Seq<(i64, usize)>) -> Seq<i16> {
    entries.map_values(|e: (i64, usize)| e.0 as i16)
}

proof fn lemma_firsts_multiset(a: Seq<(i64, usize)>, b: Seq<(i64, usize)>)
    requires
        a.to_multiset() == b.to_multiset(),
    ensures
        firsts(a).to_multiset() == firsts(b).to_multiset(),
    decreases a.len(),
{
    a.to_multiset_ensures();
    b.to_multiset_ensures();
    assert(a.len() == b.len());
    if a.len() == 0 {
        assert(firsts(a) =~= firsts(b));
    } else {
        let e = a.last();
        let rest = a.drop_last();
        assert(a =~= rest.push(e));
        assert(a.to_multiset().count(e) > 0) by {
            assert(a[a.len() - 1] == e);
            assert(a.contains(e));
        }
        assert(b.contains(e));
        let k = choose|k: int| 0 <= k < b.len() && b[k] == e;
        let other = b.remove(k);
        rest.to_multiset_ensures();
        assert(rest.push(e).to_multiset() =~= rest.to_multiset().insert(e));
        assert(other.to_multiset() =~= b.to_multiset().remove(e));
        assert(rest.to_multiset() =~= other.to_multiset());
        lemma_firsts_multiset(rest, other);
        let x = e.0 as i16;
        firsts(rest).to_multiset_ensures();
        firsts(b).to_multiset_ensures();
        assert(firsts(a) =~= firsts(rest).push(x));
        assert(firsts(a).to_multiset() =~= firsts(rest).to_multiset().insert(x));
        assert(firsts(other) =~= firsts(b).remove(k));
        assert(firsts(other).to_multiset() =~= firsts(b).to_multiset().remove(x));
        assert(firsts(b).contains(x)) by {
            assert(firsts(b)[k] == x);
        }
        assert(firsts(b).to_multiset() =~= firsts(other).to_multiset().insert(x));
    }
}

/// Cuts that part the references into buckets of about one size in a dimension.
pub fn compute_quantile_cuts(references: &[Reference], dim: usize, cut_count: usize) -> (r: Vec<i16>)
    requires
        dim < PACKED_DIMS,
        cut_count < usize::MAX,
    ensures
        are_quantiles(r@, coordinates(references@, dim as int), cut_count as int),
{
    let ghost values = coordinates(references@, dim as int);
    let n: usize = references.len();
    let mut cuts: Vec<i16> = Vec::new();
    if n == 0 {
        let mut i: usize = 0;
        while i < cut_count
            invariant
                i <= cut_count,
                cuts@.len() == i,
                forall|k: int| 0 <= k < i ==> #[trigger] cuts@[k] == 0,
            decreases cut_count - i,
        {
            cuts.push(0);
            i = i + 1;
        }
        return cuts;
    }
    let mut entries: Vec<(i64, usize)> = Vec::new();
    let mut i: usize = 0;
    while i < n
        invariant
            i <= n,
            n == references@.len(),
            dim < PACKED_DIMS,
            values == coordinates(references@, dim as int),
            entries@.len() == i,
            forall|k: int| 0 <= k < i ==> (#[trigger] entries@[k]).0 == values[k],
        decreases n - i,
    {
        entries.push((references[i].vector[dim] as i64, i));
        i = i + 1;
    }
    assert(firsts(entries@) =~= values);
    let ghost unsorted = entries@;
    let sorted = sort::sort_entries(entries);
    let ghost order = firsts(sorted@);
    proof {
        lemma_firsts_multiset(unsorted, sorted@);
        assert forall|k: int| 0 <= k < sorted@.len() implies i16::MIN <= (
        #[trigger] sorted@[k]).0 <= i16::MAX by {
            sorted@.to_multiset_ensures();
            unsorted.to_multiset_ensures();
            assert(sorted@.contains(sorted@[k]));
            assert(sorted@.to_multiset().count(sorted@[k]) > 0);
            assert(unsorted.to_multiset().count(sorted@[k]) > 0);
            assert(unsorted.contains(sorted@[k]));
            let m = choose|m: int| 0 <= m < unsorted.len() && unsorted[m] == sorted@[k];
            assert(unsorted[m].0 == values[m]);
        }
        assert(ascending(order));
    }
    let mut j: usize = 0;
    while j < cut_count
        invariant
            j <= cut_count < usize::MAX,
            n == sorted@.len(),
            n > 0,
            order == firsts(sorted@),
            forall|k: int|
                0 <= k < sorted@.len() ==> i16::MIN <= (#[trigger] sorted@[k]).0 <= i16::MAX,
            cuts@.len() == j,
            forall|k: int|
                0 <= k < j ==> #[trigger] cuts@[k] == order[cut_rank(
                    k,
                    n as int,
                    cut_count as int,
                )],
        decreases cut_count - j,
    {
        assert((j + 1) * n <= 0xffff_ffff_ffff_ffff * 0xffff_ffff_ffff_ffff) by (nonlinear_arith)
            requires
                0 <= j + 1 <= 0xffff_ffff_ffff_ffff,
                0 <= n <= 0xffff_ffff_ffff_ffff,
        ;
        let at: u128 = ((j as u128 + 1) * n as u128) / (cut_count as u128 + 1);
        let rank: usize = if at < (n - 1) as u128 {
            at as usize
        } else {
            n - 1
        };
        assert(0 <= cut_rank(j as int, n as int, cut_count as int) < n) by {
            assert(0 <= at);
        }
        cuts.push(sorted[rank].0 as i16);
        j = j + 1;
    }
    proof {
        assert(order.to_multiset() == values.to_multiset());
    }
    cuts
}

impl PartitionScheme {
    /// Keys come from a decision tree.
    pub open spec fn walks_tree(self) -> bool {
        self.tree_depth > 0
    }

    /// The key of a vector under this scheme.
    pub open spec fn key(self, vector: Seq<i16>, cuts: Seq<i16>) -> int {
        if self.walks_tree() {
            tree_key(vector, self.tree_predicates@, self.tree_depth as nat)
        } else {
            cut_key(
                vector,
                cuts.subrange(0, self.amount_cut_count as int),
                cuts.subrange(
                    self.amount_cut_count as int,
                    self.amount_cut_count + self.dow_cut_count,
                ),
            ) as int
        }
    }

    /// A scheme that cuts amounts and week days.
    pub fn new(name: &str, amount_cut_count: usize, dow_cut_count: usize) -> (r: Self)
        ensures
            r.name@ == name@,
            r.amount_cut_count == amount_cut_count,
            r.dow_cut_count == dow_cut_count,
            r.tree_depth == 0,
            r.tree_predicates@.len() == 0,
    {
        PartitionScheme {
            name: String::from_str(name),
            amount_cut_count,
            dow_cut_count,
            tree_depth: 0,
            tree_predicates: Vec::new(),
        }
    }

    /// A scheme that walks a decision tree.
    pub fn tree(name: &str, depth: u32, predicates: Vec<TreePredicate>) -> (r: Self)
        ensures
            r.name@ == name@,
            r.amount_cut_count == 0,
            r.dow_cut_count == 0,
            r.tree_depth == depth,
            r.tree_predicates@ == predicates@,
    {
        PartitionScheme {
            name: String::from_str(name),
            amount_cut_count: 0,
            dow_cut_count: 0,
            tree_depth: depth,
            tree_predicates: predicates,
        }
    }

    /// Sixteen buckets of amounts, seven of week days.
    pub fn recommended() -> (r: Self)
        ensures
            r.name@ == "amt16_dow7"@,
            r.amount_cut_count == 15,
            r.dow_cut_count == 6,
            r.tree_depth == 0,
            r.tree_predicates@.len() == 0,
    {
        Self::new("amt16_dow7", 15, 6)
    }

    /// The scheme with a name. The eight-level decision tree comes without questions.
    pub fn by_name(name: &str) -> (r: Option<Self>)
        ensures
            r is Some <==> name@ == "amt32_dow7"@ || name@ == "amt16_dow7"@ || name@
                == "amt32_only"@ || name@ == "legacy_r2"@ || name@ == "tree256"@,
            r matches Some(scheme) ==> {
                &&& scheme.name@ == name@
                &&& scheme.tree_predicates@.len() == 0
                &&& scheme.tree_depth == (if name@ == "tree256"@ {
                    8
                } else {
                    0int
                })
                &&& scheme.amount_cut_count == (if name@ == "amt32_dow7"@ || name@
                    == "amt32_only"@ {
                    31
                } else if name@ == "amt16_dow7"@ {
                    15
                } else if name@ == "legacy_r2"@ {
                    7
                } else {
                    0int
                })
                &&& scheme.dow_cut_count == (if name@ == "amt32_dow7"@ || name@ == "amt16_dow7"@ {
                    6
                } else {
                    0int
                })
            },
    {
        proof {
            reveal_strlit("amt32_dow7");
            reveal_strlit("amt16_dow7");
            reveal_strlit("amt32_only");
            reveal_strlit("legacy_r2");
            reveal_strlit("tree256");
            assert("amt32_dow7"@[3] == '3' && "amt16_dow7"@[3] == '1' && "amt32_only"@[3] == '3');
            assert("amt32_dow7"@[6] == 'd' && "amt32_only"@[6] == 'o');
            assert("legacy_r2"@.len() == 9 && "tree256"@.len() == 7 && "amt32_dow7"@.len() == 10);
        }
        if text::same_text(name, "amt32_dow7") {
            Some(Self::new("amt32_dow7", 31, 6))
        } else if text::same_text(name, "amt16_dow7") {
            Some(Self::new("amt16_dow7", 15, 6))
        } else if text::same_text(name, "amt32_only") {
            Some(Self::new("amt32_only", 31, 0))
        } else if text::same_text(name, "legacy_r2") {
            Some(Self::new("legacy_r2", 7, 0))
        } else if text::same_text(name, "tree256") {
            Some(Self::tree("tree256", 8, Vec::new()))
        } else {
            None
        }
    }

    /// The number under which the scheme is stored.
    pub fn scheme_id(&self) -> (r: i16)
        ensures
            r == (if self.walks_tree() {
                TREE_SCHEME
            } else {
                CUTS_SCHEME
            }),
    {
        if self.tree_depth > 0 {
            TREE_SCHEME
        } else {
            CUTS_SCHEME
        }
    }

    /// The cuts through the references' amounts, then those through their week days.
    pub fn compute_cuts(&self, references: &[Reference]) -> (r: Vec<i16>)
        requires
            self.amount_cut_count + self.dow_cut_count < usize::MAX,
        ensures
            r@.len() == self.amount_cut_count + self.dow_cut_count,
            are_quantiles(
                r@.subrange(0, self.amount_cut_count as int),
                coordinates(references@, 0),
                self.amount_cut_count as int,
            ),
            are_quantiles(
                r@.subrange(self.amount_cut_count as int, r@.len() as int),
                coordinates(references@, 4),
                self.dow_cut_count as int,
            ),
    {
        let mut cuts = compute_quantile_cuts(references, 0, self.amount_cut_count);
        let mut dow_cuts = compute_quantile_cuts(references, 4, self.dow_cut_count);
        let ghost amounts = cuts@;
        let ghost dows = dow_cuts@;
        cuts.append(&mut dow_cuts);
        proof {
            assert(cuts@.subrange(0, self.amount_cut_count as int) =~= amounts);
            assert(cuts@.subrange(self.amount_cut_count as int, cuts@.len() as int) =~= dows);
        }
        cuts
    }

    /// The key of a vector under this scheme.
    pub fn compute_key(&self, vector: &QueryVector, cuts: &[i16]) -> (r: u32)
        requires
            self.walks_tree() ==> self.tree_depth <= MAX_TREE_DEPTH,
            !self.walks_tree() ==> self.amount_cut_count < 0x8000_0000 && self.dow_cut_count
                <= u32::MAX && self.amount_cut_count + self.dow_cut_count <= cuts@.len(),
        ensures
            r == self.key(vector@, cuts@),
    {
        if self.tree_depth > 0 {
            return compute_tree_key(vector, self.tree_depth, self.tree_predicates.as_slice());
        }
        let total: usize = cuts.len();
        let split: usize = self.amount_cut_count;
        assert(self.amount_cut_count + self.dow_cut_count <= total);
        let end: usize = self.amount_cut_count + self.dow_cut_count;
        compute_cut_key(vector, &cuts[0..split], &cuts[split..end])
    }
}

} // verus!
