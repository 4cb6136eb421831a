//! Writing an index file.

use vstd::prelude::*;

use crate::index::layout;
use crate::index::partition_scheme::LearnedPredicate;
use crate::index::partition_scheme::TreePredicate;
use crate::PACKED_DIMS;
use crate::SCALE;

verus! {

/// Collects the bytes of an index file.
pub struct IndexWriter {
    buf: Vec<u8>,
}

/// The four bytes at `at` were replaced.
pub open spec fn replaced(before: Seq<u8>, after: Seq<u8>, at: int) -> bool {
    &&& after.len() == before.len()
    &&& forall|i: int|
        0 <= i < before.len() && !(at <= i < at + 4) ==> #[trigger] after[i] == before[i]
}

/// The header's counts stand at `at`.
pub open spec fn counts_at(
    bytes: Seq<u8>,
    at: int,
    reference_count: i32,
    scheme_id: i16,
    scheme_param: i16,
    amount_cut_count: i16,
    predicate_count: int,
) -> bool {
    &&& layout::u64_at(bytes, at) == layout::MAGIC_V5
    &&& layout::i32_at(bytes, at + 8) == SCALE
    &&& layout::i32_at(bytes, at + 12) == PACKED_DIMS
    &&& layout::i32_at(bytes, at + 16) == reference_count
    &&& layout::i32_at(bytes, at + 20) == 0
    &&& layout::i32_at(bytes, at + 24) == 0
    &&& layout::i32_at(bytes, at + 28) == 0
    &&& layout::i16_at(bytes, at + 32) == scheme_id
    &&& layout::i16_at(bytes, at + 34) == scheme_param
    &&& layout::i16_at(bytes, at + 36) == amount_cut_count
    &&& layout::u16_at(bytes, at + 38) == predicate_count % 0x1_0000
}

/// A learned question stands at `at`.
pub open spec fn learned_at(bytes: Seq<u8>, at: int, predicate: LearnedPredicate) -> bool {
    &&& bytes[at] == predicate.dim
    &&& bytes[at + 1] == 1
    &&& layout::i16_at(bytes, at + 2) == predicate.threshold
}

/// A question of a tree stands at `at`.
pub open spec fn tree_predicate_at(bytes: Seq<u8>, at: int, predicate: TreePredicate) -> bool {
    &&& bytes[at] == predicate.dim
    &&& bytes[at + 1] == (if predicate.enabled {
        1
    } else {
        0int
    })
    &&& layout::i16_at(bytes, at + 2) == predicate.threshold
}

impl View for IndexWriter {
    type V = Seq<u8>;

    closed spec fn view(&self) -> Seq<u8> {
        self.buf@
    }
}

impl IndexWriter {
    /// Nothing written yet.
    pub fn new() -> (r: Self)
        ensures
            r@ == Seq::<u8>::empty(),
    {
        IndexWriter { buf: Vec::new() }
    }

    /// How many bytes there are.
    pub fn len(&self) -> (r: usize)
        ensures
            r == self@.len(),
    {
        self.buf.len()
    }

    /// The bytes that were written.
    pub fn into_bytes(self) -> (r: Vec<u8>)
        ensures
            r@ == self@,
    {
        self.buf
    }

    /// Writes a byte.
    pub fn write_u8(&mut self, v: u8) -> (r: Result<(), String>)
        ensures
            r is Ok,
            final(self)@ == old(self)@.push(v),
    {
        self.buf.push(v);
        Ok(())
    }

    /// Writes the low two bytes of a number.
    fn write_low16(&mut self, v: u64)
        ensures
            layout::extends(old(self)@, final(self)@, 2),
            layout::u16_at(final(self)@, old(self)@.len() as int) == v as int % 0x1_0000,
    {
        let low: u64 = v % 0x1_0000;
        self.buf.push((low % 0x100) as u8);
        self.buf.push((low / 0x100) as u8);
    }

    /// Writes the low four bytes of a number.
    fn write_low32(&mut self, v: u64)
        ensures
            layout::extends(old(self)@, final(self)@, 4),
            layout::u32_at(final(self)@, old(self)@.len() as int) == v as int % 0x1_0000_0000,
    {
        let low: u64 = v % 0x1_0000_0000;
        self.write_low16(low % 0x1_0000);
        self.write_low16(low / 0x1_0000);
    }

    /// Writes a number of two bytes.
    pub fn write_i16(&mut self, v: i16) -> (r: Result<(), String>)
        ensures
            r is Ok,
            layout::extends(old(self)@, final(self)@, 2),
            layout::i16_at(final(self)@, old(self)@.len() as int) == v,
    {
        self.write_low16((v as i64 + 0x1_0000) as u64);
        Ok(())
    }

    /// Writes a number of four bytes.
    pub fn write_u32(&mut self, v: u32) -> (r: Result<(), String>)
        ensures
            r is Ok,
            layout::extends(old(self)@, final(self)@, 4),
            layout::u32_at(final(self)@, old(self)@.len() as int) == v,
    {
        self.write_low32(v as u64);
        Ok(())
    }

    /// Writes a number of four bytes.
    fn write_i32(&mut self, v: i32) -> (r: Result<(), String>)
        ensures
            r is Ok,
            layout::extends(old(self)@, final(self)@, 4),
            layout::i32_at(final(self)@, old(self)@.len() as int) == v,
    {
        self.write_low32((v as i64 + 0x1_0000_0000) as u64);
        Ok(())
    }

    /// Writes sixteen coordinates.
    fn write_vector(&mut self, v: &[i16; PACKED_DIMS])
        ensures
            layout::extends(old(self)@, final(self)@, 32),
            layout::vector_at(final(self)@, old(self)@.len() as int, v@),
    {
        let ghost start = self@.len() as int;
        let mut d: usize = 0;
        while d < PACKED_DIMS
            invariant
                d <= PACKED_DIMS,
                start == old(self)@.len(),
                layout::extends(old(self)@, self@, 2 * d),
                forall|k: int|
                    0 <= k < d ==> #[trigger] v@[k] == layout::i16_at(self@, start + 2 * k),
            decreases PACKED_DIMS - d,
        {
            let ghost before = self@;
            let _ = self.write_i16(v[d]);
            proof {
                assert forall|k: int| 0 <= k < d + 1 implies #[trigger] v@[k] == layout::i16_at(
                    self@,
                    start + 2 * k,
                ) by {
                    if k < d {
                        assert(v@[k] == layout::i16_at(before, start + 2 * k));
                        assert(self@[start + 2 * k] == before[start + 2 * k]);
                        assert(self@[start + 2 * k + 1] == before[start + 2 * k + 1]);
                    }
                }
            }
            d = d + 1;
        }
    }

    /// Writes the header: the counts, with those of partitions, nodes and blocks left at 0, the
    /// questions, those that were learned first, and behind them the number of cuts through week days
    /// and the cuts.
    pub fn write_header(
        &mut self,
        reference_count: i32,
        scheme_id: i16,
        scheme_param: i16,
        amount_cut_count: i16,
        dow_cut_count: i16,
        cuts: &[i16],
        learned_predicates: &[LearnedPredicate],
        tree_predicates: &[TreePredicate],
    ) -> (r: Result<(), String>)
        requires
            learned_predicates@.len() + tree_predicates@.len() <= usize::MAX,
        ensures
            r is Ok,
            layout::extends(
                old(self)@,
                final(self)@,
                (42 + 2 * cuts@.len() + 4 * (learned_predicates@.len() + tree_predicates@.len())) as int,
            ),
            ({
                let at = old(self)@.len() as int;
                let behind = at + 40 + 4 * (learned_predicates@.len() + tree_predicates@.len());
                &&& counts_at(
                    final(self)@,
                    at,
                    reference_count,
                    scheme_id,
                    scheme_param,
                    amount_cut_count,
                    (learned_predicates@.len() + tree_predicates@.len()) as int,
                )
                &&& forall|i: int|
                    0 <= i < learned_predicates@.len() ==> learned_at(
                        final(self)@,
                        at + 40 + 4 * i,
                        #[trigger] learned_predicates@[i],
                    )
                &&& forall|i: int|
                    0 <= i < tree_predicates@.len() ==> tree_predicate_at(
                        final(self)@,
                        at + 40 + 4 * learned_predicates@.len() + 4 * i,
                        #[trigger] tree_predicates@[i],
                    )
                &&& layout::i16_at(final(self)@, behind) == dow_cut_count
                &&& forall|i: int|
                    0 <= i < cuts@.len() ==> #[trigger] cuts@[i] == layout::i16_at(
                        final(self)@,
                        behind + 2 + 2 * i,
                    )
            }),
    {
        let ghost at = self@.len() as int;
        self.write_low32(layout::MAGIC_V5 % 0x1_0000_0000);
        self.write_low32(layout::MAGIC_V5 / 0x1_0000_0000);
        let _ = self.write_i32(SCALE as i32);
        let _ = self.write_i32(PACKED_DIMS as i32);
        let _ = self.write_i32(reference_count);
        let _ = self.write_i32(0);
        let _ = self.write_i32(0);
        let _ = self.write_i32(0);
        let _ = self.write_i16(scheme_id);
        let _ = self.write_i16(scheme_param);
        let _ = self.write_i16(amount_cut_count);
        let predicate_count: usize = learned_predicates.len() + tree_predicates.len();
        self.write_low16(predicate_count as u64);
        let ghost counts = self@;
        assert(counts_at(
            counts,
            at,
            reference_count,
            scheme_id,
            scheme_param,
            amount_cut_count,
            (learned_predicates@.len() + tree_predicates@.len()) as int,
        ));
        let ghost l_at = at + 40;
        let mut j: usize = 0;
        while j < learned_predicates.len()
            invariant
                j <= learned_predicates@.len(),
                counts.len() == l_at,
                layout::extends(counts, self@, 4 * j),
                forall|k: int|
                    0 <= k < j ==> learned_at(
                        self@,
                        l_at + 4 * k,
                        #[trigger] learned_predicates@[k],
                    ),
            decreases learned_predicates@.len() - j,
        {
            let ghost before = self@;
            let predicate = learned_predicates[j];
            let _ = self.write_u8(predicate.dim);
            let _ = self.write_u8(1);
            let _ = self.write_i16(predicate.threshold);
            proof {
                assert forall|k: int| 0 <= k < j + 1 implies learned_at(
                    self@,
                    l_at + 4 * k,
                    #[trigger] learned_predicates@[k],
                ) by {
                    if k < j {
                        let o = l_at + 4 * k;
                        assert(learned_at(before, o, learned_predicates@[k]));
                        assert(self@[o] == before[o]);
                        assert(self@[o + 1] == before[o + 1]);
                        assert(self@[o + 2] == before[o + 2]);
                        assert(self@[o + 3] == before[o + 3]);
                    }
                }
            }
            j = j + 1;
        }
        let ghost with_learned = self@;
        let ghost t_at = l_at + 4 * learned_predicates@.len();
        let mut m: usize = 0;
        while m < tree_predicates.len()
            invariant
                m <= tree_predicates@.len(),
                with_learned.len() == t_at,
                layout::extends(with_learned, self@, 4 * m),
                forall|k: int|
                    0 <= k < m ==> tree_predicate_at(
                        self@,
                        t_at + 4 * k,
                        #[trigger] tree_predicates@[k],
                    ),
            decreases tree_predicates@.len() - m,
        {
            let ghost before = self@;
            let predicate = tree_predicates[m];
            let _ = self.write_u8(predicate.dim);
            let _ = self.write_u8(if predicate.enabled {
                1
            } else {
                0
            });
            let _ = self.write_i16(predicate.threshold);
            proof {
                assert forall|k: int| 0 <= k < m + 1 implies tree_predicate_at(
                    self@,
                    t_at + 4 * k,
                    #[trigger] tree_predicates@[k],
                ) by {
                    if k < m {
                        let o = t_at + 4 * k;
                        assert(tree_predicate_at(before, o, tree_predicates@[k]));
                        assert(self@[o] == before[o]);
                        assert(self@[o + 1] == before[o + 1]);
                        assert(self@[o + 2] == before[o + 2]);
                        assert(self@[o + 3] == before[o + 3]);
                    }
                }
            }
            m = m + 1;
        }
        let ghost with_tree = self@;
        let _ = self.write_i16(dow_cut_count);
        let ghost with_dow = self@;
        let ghost c_at = t_at + 4 * tree_predicates@.len() + 2;
        let mut i: usize = 0;
        while i < cuts.len()
            invariant
                i <= cuts@.len(),
                with_dow.len() == c_at,
                layout::extends(with_dow, self@, 2 * i),
                forall|k: int|
                    0 <= k < i ==> #[trigger] cuts@[k] == layout::i16_at(self@, c_at + 2 * k),
            decreases cuts@.len() - i,
        {
            let ghost before = self@;
            let _ = self.write_i16(cuts[i]);
            proof {
                assert forall|k: int| 0 <= k < i + 1 implies #[trigger] cuts@[k] == layout::i16_at(
                    self@,
                    c_at + 2 * k,
                ) by {
                    if k < i {
                        assert(self@[c_at + 2 * k] == before[c_at + 2 * k]);
                        assert(self@[c_at + 2 * k + 1] == before[c_at + 2 * k + 1]);
                    }
                }
            }
            i = i + 1;
        }
        proof {
            let f = self@;
            assert forall|k: int| 0 <= k < with_learned.len() implies f[k] == with_learned[k] by {
                assert(with_tree[k] == with_learned[k]);
                assert(with_dow[k] == with_tree[k]);
            }
            assert forall|k: int| 0 <= k < with_tree.len() implies f[k] == with_tree[k] by {
                assert(with_dow[k] == with_tree[k]);
            }
            assert forall|k: int| 0 <= k < counts.len() implies f[k] == counts[k] by {
                assert(with_learned[k] == counts[k]);
            }
            assert(counts_at(
                f,
                at,
                reference_count,
                scheme_id,
                scheme_param,
                amount_cut_count,
                (learned_predicates@.len() + tree_predicates@.len()) as int,
            ));
            assert forall|k: int| 0 <= k < learned_predicates@.len() implies learned_at(
                f,
                at + 40 + 4 * k,
                #[trigger] learned_predicates@[k],
            ) by {
                let o = l_at + 4 * k;
                assert(learned_at(with_learned, o, learned_predicates@[k]));
                assert(f[o] == with_learned[o]);
                assert(f[o + 1] == with_learned[o + 1]);
                assert(f[o + 2] == with_learned[o + 2]);
                assert(f[o + 3] == with_learned[o + 3]);
            }
            assert forall|k: int| 0 <= k < tree_predicates@.len() implies tree_predicate_at(
                f,
                at + 40 + 4 * learned_predicates@.len() + 4 * k,
                #[trigger] tree_predicates@[k],
            ) by {
                let o = t_at + 4 * k;
                assert(tree_predicate_at(with_tree, o, tree_predicates@[k]));
                assert(f[o] == with_tree[o]);
                assert(f[o + 1] == with_tree[o + 1]);
                assert(f[o + 2] == with_tree[o + 2]);
                assert(f[o + 3] == with_tree[o + 3]);
            }
            let d_at = c_at - 2;
            assert(f[d_at] == with_dow[d_at] && f[d_at + 1] == with_dow[d_at + 1]);
        }
        Ok(())
    }

    /// Replaces four bytes.
    #[verifier::spinoff_prover]
    fn put_i32(&mut self, at: usize, v: i32)
        requires
            at + 4 <= old(self)@.len(),
        ensures
            replaced(old(self)@, final(self)@, at as int),
            layout::i32_at(final(self)@, at as int) == v,
    {
        let total: usize = self.buf.len();
        let low: u64 = if v >= 0 {
            v as u64
        } else {
            (v as i64 + 0x1_0000_0000) as u64
        };
        let b0: u64 = low % 0x100;
        let high: u64 = low / 0x100;
        let b1: u64 = high % 0x100;
        let higher: u64 = high / 0x100;
        let b2: u64 = higher % 0x100;
        let b3: u64 = higher / 0x100;
        assert(low == b0 + 0x100 * (b1 + 0x100 * (b2 + 0x100 * b3)));
        assert(b3 < 0x100);
        self.buf.set(at, b0 as u8);
        self.buf.set(at + 1, b1 as u8);
        self.buf.set(at + 2, b2 as u8);
        self.buf.set(at + 3, b3 as u8);
        assert(layout::u32_at(self@, at as int) == low);
    }

    /// Puts the number of partitions into the header.
    pub fn write_partition_count(&mut self, count: i32) -> (r: Result<(), String>)
        requires
            old(self)@.len() >= 24,
        ensures
            r is Ok,
            replaced(old(self)@, final(self)@, 20),
            layout::i32_at(final(self)@, 20) == count,
    {
        self.put_i32(20, count);
        Ok(())
    }

    /// Puts the number of nodes into the header.
    pub fn write_node_count(&mut self, count: i32) -> (r: Result<(), String>)
        requires
            old(self)@.len() >= 28,
        ensures
            r is Ok,
            replaced(old(self)@, final(self)@, 24),
            layout::i32_at(final(self)@, 24) == count,
    {
        self.put_i32(24, count);
        Ok(())
    }

    /// Puts the number of blocks into the header.
    pub fn write_block_count(&mut self, count: i32) -> (r: Result<(), String>)
        requires
            old(self)@.len() >= 32,
        ensures
            r is Ok,
            replaced(old(self)@, final(self)@, 28),
            layout::i32_at(final(self)@, 28) == count,
    {
        self.put_i32(28, count);
        Ok(())
    }

    /// Writes a partition's record.
    pub fn write_partition_entry(
        &mut self,
        key: u32,
        root: usize,
        len: usize,
        min: [i16; PACKED_DIMS],
        max: [i16; PACKED_DIMS],
    ) -> (r: Result<(), String>)
        ensures
            r is Ok,
            layout::extends(old(self)@, final(self)@, 80),
            ({
                let at = old(self)@.len() as int;
                &&& layout::u32_at(final(self)@, at) == key
                &&& layout::u32_at(final(self)@, at + 4) == root as int % 0x1_0000_0000
                &&& layout::i32_at(final(self)@, at + 8) == 0
                &&& layout::u32_at(final(self)@, at + 12) == len as int % 0x1_0000_0000
                &&& layout::vector_at(final(self)@, at + 16, min@)
                &&& layout::vector_at(final(self)@, at + 48, max@)
            }),
    {
        let ghost at = self@.len() as int;
        let _ = self.write_u32(key);
        self.write_low32(root as u64);
        let _ = self.write_i32(0);
        self.write_low32(len as u64);
        let ghost head = self@;
        self.write_vector(&min);
        let ghost with_min = self@;
        self.write_vector(&max);
        proof {
            lemma_vector_stays(with_min, self@, at + 16, min@);
            assert forall|k: int| at <= k < at + 16 implies self@[k] == head[k] by {
                assert(with_min[k] == head[k]);
            }
        }
        Ok(())
    }

    /// Writes a node's record.
    pub fn write_node_entry(
        &mut self,
        left: i32,
        right: i32,
        start: usize,
        len: usize,
        min: [i16; PACKED_DIMS],
        max: [i16; PACKED_DIMS],
    ) -> (r: Result<(), String>)
        ensures
            r is Ok,
            layout::extends(old(self)@, final(self)@, 80),
            ({
                let at = old(self)@.len() as int;
                &&& layout::i32_at(final(self)@, at) == left
                &&& layout::i32_at(final(self)@, at + 4) == right
                &&& layout::u32_at(final(self)@, at + 8) == start as int % 0x1_0000_0000
                &&& layout::u32_at(final(self)@, at + 12) == len as int % 0x1_0000_0000
                &&& layout::vector_at(final(self)@, at + 16, min@)
                &&& layout::vector_at(final(self)@, at + 48, max@)
            }),
    {
        let ghost at = self@.len() as int;
        let _ = self.write_i32(left);
        let _ = self.write_i32(right);
        self.write_low32(start as u64);
        self.write_low32(len as u64);
        let ghost head = self@;
        self.write_vector(&min);
        let ghost with_min = self@;
        self.write_vector(&max);
        proof {
            lemma_vector_stays(with_min, self@, at + 16, min@);
            assert forall|k: int| at <= k < at + 16 implies self@[k] == head[k] by {
                assert(with_min[k] == head[k]);
            }
        }
        Ok(())
    }

    /// Writes zeros up to the next multiple of `align`.
    pub fn align_to(&mut self, align: usize)
        requires
            align > 0,
        ensures
            layout::extends(
                old(self)@,
                final(self)@,
                layout::aligned(old(self)@.len() as int, align as int) - old(self)@.len(),
            ),
            forall|i: int|
                old(self)@.len() <= i < final(self)@.len() ==> #[trigger] final(self)@[i] == 0,
    {
        let padding: usize = (align - (self.buf.len() % align)) % align;
        let mut i: usize = 0;
        while i < padding
            invariant
                i <= padding,
                layout::extends(old(self)@, self@, i as int),
                forall|k: int| old(self)@.len() <= k < self@.len() ==> #[trigger] self@[k] == 0,
            decreases padding - i,
        {
            let _ = self.write_u8(0);
            i = i + 1;
        }
    }
}

/// What was written stays as more is written.
pub proof fn lemma_vector_stays(before: Seq<u8>, after: Seq<u8>, at: int, vector: Seq<i16>)
    requires
        0 <= at,
        at + 32 <= before.len(),
        layout::vector_at(before, at, vector),
        forall|i: int| at <= i < at + 32 ==> #[trigger] after[i] == before[i],
    ensures
        layout::vector_at(after, at, vector),
{
    assert forall|d: int| 0 <= d < PACKED_DIMS implies #[trigger] vector[d] == layout::i16_at(
        after,
        at + 2 * d,
    ) by {
        assert(vector[d] == layout::i16_at(before, at + 2 * d));
        assert(after[at + 2 * d] == before[at + 2 * d]);
        assert(after[at + 2 * d + 1] == before[at + 2 * d + 1]);
    }
}

} // verus!
