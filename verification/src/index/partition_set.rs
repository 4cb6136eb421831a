//! Sets of partition keys.

use vstd::prelude::*;

use crate::K;

verus! {

/// How many keys a set can tell apart.
pub const SET_KEYS: usize = 256;

/// Bit `i` of `word` is set.
pub open spec fn bit(word: u64, i: u64) -> bool {
    word & (1u64 << i) != 0
}

/// A set of partition keys below 256.
#[derive(Clone, Copy, Debug, PartialEq, Eq)]
pub struct PartitionSet(pub [u64; 4]);

impl View for PartitionSet {
    type V = Set<u32>;

    open spec fn view(&self) -> Set<u32> {
        Set::new(|key: u32| key < SET_KEYS && bit(self.0@[key as int / 64], (key % 64) as u64))
    }
}

/// The keys of `keys` that a set can hold.
pub open spec fn small_keys(keys: Seq<u32>) -> Set<u32> {
    Set::new(|key: u32| key < SET_KEYS && keys.contains(key))
}

/// The keys of a set below `n`, in order.
pub open spec fn ascending(keys: Set<u32>, n: nat) -> Seq<u32>
    decreases n,
{
    if n == 0 {
        Seq::empty()
    } else if keys.contains((n - 1) as u32) {
        ascending(keys, (n - 1) as nat).push((n - 1) as u32)
    } else {
        ascending(keys, (n - 1) as nat)
    }
}

/// The key and every key that differs from it in one of the low eight bits.
pub open spec fn near_keys(key: u32) -> Set<u32> {
    Set::new(
        |other: u32| other == key || exists|b: u32| b < 8 && other == key ^ (1u32 << b),
    )
}

proof fn lemma_set_bit(word: u64, i: u64, j: u64)
    by (bit_vector)
    requires
        i < 64,
        j < 64,
    ensures
        ((word | (1u64 << i)) & (1u64 << j) != 0) == (i == j || word & (1u64 << j) != 0),
{
}

proof fn lemma_no_bit(j: u64)
    by (bit_vector)
    requires
        j < 64,
    ensures
        0u64 & (1u64 << j) == 0,
{
}

impl PartitionSet {
    /// The set without keys.
    pub fn empty() -> (r: Self)
        ensures
            r@ == Set::<u32>::empty(),
    {
        let r = PartitionSet([0u64; 4]);
        assert forall|key: u32| !r@.contains(key) by {
            lemma_no_bit((key % 64) as u64);
        }
        assert(r@ =~= Set::<u32>::empty());
        r
    }

    /// Adds a key, if it is below 256.
    pub fn set(&mut self, key: u32)
        ensures
            final(self)@ == (if key < SET_KEYS {
                old(self)@.insert(key)
            } else {
                old(self)@
            }),
    {
        let k: usize = key as usize;
        if k < SET_KEYS {
            let word: u64 = self.0[k / 64];
            self.0[k / 64] = word | (1u64 << (k % 64) as u64);
            proof {
                assert forall|other: u32| self@.contains(other) == old(self)@.insert(
                    key,
                ).contains(other) by {
                    if other < SET_KEYS {
                        lemma_set_bit(word, (key % 64) as u64, (other % 64) as u64);
                    }
                }
                assert(self@ =~= old(self)@.insert(key));
            }
        }
    }

    /// Tells whether a key is in the set.
    pub fn contains(&self, key: u32) -> (r: bool)
        ensures
            r == self@.contains(key),
    {
        let k: usize = key as usize;
        if k >= SET_KEYS {
            return false;
        }
        (self.0[k / 64] & (1u64 << (k % 64) as u64)) != 0
    }

    /// The keys of the nearest neighbours, as far as there are any.
    pub fn from_top_keys(keys: &[u32; K]) -> (r: Self)
        ensures
            r@ == small_keys(keys@),
    {
        let mut r = Self::empty();
        let mut i: usize = 0;
        assert(small_keys(keys@.take(0)) =~= Set::<u32>::empty());
        while i < K
            invariant
                i <= K,
                keys@.len() == K,
                r@ == small_keys(keys@.take(i as int)),
            decreases K - i,
        {
            let key: u32 = keys[i];
            r.set(key);
            proof {
                let t = keys@.take(i as int);
                assert(keys@.take(i + 1) =~= t.push(key));
                assert forall|other: u32| #[trigger] t.push(key).contains(other) == (t.contains(
                    other,
                ) || other == key) by {
                    if t.contains(other) {
                        let j = choose|j: int| 0 <= j < t.len() && t[j] == other;
                        assert(t.push(key)[j] == other);
                    }
                    assert(t.push(key)[t.len() as int] == key);
                }
                assert forall|other: u32| r@.contains(other) == small_keys(
                    keys@.take(i + 1),
                ).contains(other) by {
                    assert(t.push(key).contains(other) == (t.contains(other) || other == key));
                }
                assert(r@ =~= small_keys(keys@.take(i + 1)));
            }
            i = i + 1;
        }
        assert(keys@.take(K as int) =~= keys@);
        r
    }

    /// The set with `query_key` and its single-bit neighbours.
    pub fn with_query_margin(&self, query_key: u32) -> (r: Self)
        ensures
            r@ == self@.union(
                near_keys(query_key).intersect(Set::new(|key: u32| key < SET_KEYS)),
            ),
    {
        let mut r = *self;
        r.set(query_key);
        let mut b: u32 = 0;
        let ghost below = |n: u32|
            Set::new(
                |other: u32|
                    other < SET_KEYS && (other == query_key || exists|c: u32|
                        c < n && other == query_key ^ (1u32 << c)),
            );
        proof {
            assert(r@ =~= self@.union(below(0)));
        }
        while b < 8
            invariant
                b <= 8,
                below == (|n: u32|
                    Set::new(
                        |other: u32|
                            other < SET_KEYS && (other == query_key || exists|c: u32|
                                c < n && other == query_key ^ (1u32 << c)),
                    )),
                r@ == self@.union(below(b)),
            decreases 8 - b,
        {
            let near: u32 = query_key ^ (1u32 << b);
            r.set(near);
            proof {
                let next = (b + 1) as u32;
                assert forall|other: u32| r@.contains(other) == self@.union(below(next)).contains(
                    other,
                ) by {
                    if below(next).contains(other) && other != query_key {
                        let c = choose|c: u32| c < next && other == query_key ^ (1u32 << c);
                        if c < b {
                            assert(below(b).contains(other));
                        }
                    }
                    if below(b).contains(other) && other != query_key {
                        let c = choose|c: u32| c < b && other == query_key ^ (1u32 << c);
                        assert(c < next && other == query_key ^ (1u32 << c));
                    }
                    if other == near {
                        assert(b < next && other == query_key ^ (1u32 << b));
                    }
                }
                assert(r@ =~= self@.union(below(next)));
            }
            b = b + 1;
        }
        proof {
            assert(below(8) =~= near_keys(query_key).intersect(
                Set::new(|key: u32| key < SET_KEYS),
            ));
        }
        r
    }

    /// The keys of the set, in order.
    pub fn keys_sorted(&self) -> (r: Vec<u32>)
        ensures
            forall|i: int, j: int| 0 <= i < j < r@.len() ==> r@[i] < r@[j],
            forall|key: u32| r@.contains(key) <==> self@.contains(key),
            r@ == ascending(self@, SET_KEYS as nat),
    {
        let mut r: Vec<u32> = Vec::new();
        let mut key: u32 = 0;
        while key < SET_KEYS as u32
            invariant
                key <= SET_KEYS,
                r@ == ascending(self@, key as nat),
                forall|i: int, j: int| 0 <= i < j < r@.len() ==> r@[i] < r@[j],
                forall|i: int| 0 <= i < r@.len() ==> r@[i] < key && self@.contains(#[trigger] r@[i]),
                forall|k: u32| k < key && self@.contains(k) ==> r@.contains(k),
            decreases SET_KEYS - key,
        {
            if self.contains(key) {
                let ghost before = r@;
                r.push(key);
                proof {
                    assert forall|k: u32| k < key + 1 && self@.contains(k) implies r@.contains(
                        k,
                    ) by {
                        if k < key {
                            let j = choose|j: int| 0 <= j < before.len() && before[j] == k;
                            assert(r@[j] == k);
                        } else {
                            assert(r@[before.len() as int] == k);
                        }
                    }
                }
            }
            key = key + 1;
        }
        r
    }
}

} // verus!
