//! Writing the contents of an index to a file.

use vstd::prelude::*;

use crate::index::format::IndexWriter;
use crate::index::knn::Lane;
use crate::index::layout;
use crate::index::layout::Contents;
use crate::index::layout::Partition;
use crate::index::tree::Node;

verus! {

/// The contents fit the file format: no count is too large, and no stored number is negative that
/// is stored without a sign.
pub open spec fn writable(c: Contents) -> bool {
    &&& c.amount_cuts@.len() <= 0x7fff
    &&& c.dow_cuts@.len() <= 0x7fff
    &&& c.predicates@.len() <= 0x7fff
    &&& c.partitions@.len() <= 0x7fff_ffff
    &&& c.forest.nodes@.len() <= 0x7fff_ffff
    &&& c.forest.lanes@.len() % 8 == 0
    &&& c.forest.lanes@.len() <= 8 * 0x7fff_ffff
    &&& forall|k: int|
        0 <= k < c.partitions@.len() ==> {
            &&& (#[trigger] c.partitions@[k]).root >= 0
            &&& c.partitions@[k].start == 0
            &&& c.partitions@[k].len >= 0
        }
    &&& forall|k: int|
        0 <= k < c.forest.nodes@.len() ==> {
            &&& (#[trigger] c.forest.nodes@[k]).start >= 0
            &&& c.forest.nodes@[k].len >= 0
        }
}

/// The bytes from `from` up to `to` are the same.
pub open spec fn same_bytes(a: Seq<u8>, b: Seq<u8>, from: int, to: int) -> bool {
    forall|i: int| from <= i < to ==> #[trigger] a[i] == b[i]
}

proof fn lemma_vector_moves(a: Seq<u8>, b: Seq<u8>, at: int, vector: Seq<i16>)
    requires
        same_bytes(a, b, at, at + 32),
        layout::vector_at(a, at, vector),
    ensures
        layout::vector_at(b, at, vector),
{
    assert forall|d: int| 0 <= d < 16 implies #[trigger] vector[d] == layout::i16_at(
        b,
        at + 2 * d,
    ) by {
        assert(vector[d] == layout::i16_at(a, at + 2 * d));
        assert(a[at + 2 * d] == b[at + 2 * d]);
        assert(a[at + 2 * d + 1] == b[at + 2 * d + 1]);
    }
}

proof fn lemma_number_moves(a: Seq<u8>, b: Seq<u8>, at: int)
    requires
        same_bytes(a, b, at, at + 4),
    ensures
        layout::u32_at(a, at) == layout::u32_at(b, at),
        layout::i32_at(a, at) == layout::i32_at(b, at),
        layout::u16_at(a, at) == layout::u16_at(b, at),
        layout::i16_at(a, at) == layout::i16_at(b, at),
        layout::i16_at(a, at + 2) == layout::i16_at(b, at + 2),
{
    assert(a[at] == b[at] && a[at + 1] == b[at + 1] && a[at + 2] == b[at + 2] && a[at + 3] == b[at
        + 3]);
}

proof fn lemma_partition_moves(a: Seq<u8>, b: Seq<u8>, at: int, part: Partition)
    requires
        same_bytes(a, b, at, at + 80),
        layout::partition_at(a, at, part),
    ensures
        layout::partition_at(b, at, part),
{
    lemma_number_moves(a, b, at);
    lemma_number_moves(a, b, at + 4);
    lemma_number_moves(a, b, at + 8);
    lemma_number_moves(a, b, at + 12);
    lemma_vector_moves(a, b, at + 16, part.min@);
    lemma_vector_moves(a, b, at + 48, part.max@);
}

proof fn lemma_node_moves(a: Seq<u8>, b: Seq<u8>, at: int, node: Node)
    requires
        same_bytes(a, b, at, at + 80),
        layout::node_at(a, at, node),
    ensures
        layout::node_at(b, at, node),
{
    lemma_number_moves(a, b, at);
    lemma_number_moves(a, b, at + 4);
    lemma_number_moves(a, b, at + 8);
    lemma_number_moves(a, b, at + 12);
    lemma_vector_moves(a, b, at + 16, node.min@);
    lemma_vector_moves(a, b, at + 48, node.max@);
}

/// A pair of coordinates stays where it is as long as its four bytes do.
proof fn lemma_pair_moves(
    a: Seq<u8>,
    b: Seq<u8>,
    at: int,
    lanes: Seq<Lane>,
    block: int,
    pair: int,
    l: int,
)
    requires
        same_bytes(
            a,
            b,
            at + 224 * block + 32 * pair + 4 * l,
            at + 224 * block + 32 * pair + 4 * l + 4,
        ),
        layout::pair_at(a, true, at, lanes, block, pair, l),
    ensures
        layout::pair_at(b, true, at, lanes, block, pair, l),
{
    lemma_number_moves(a, b, at + 224 * block + 32 * pair + 4 * l);
}

/// Writes the partitions' records.
fn write_partitions(w: &mut IndexWriter, partitions: &Vec<Partition>)
    requires
        forall|k: int|
            0 <= k < partitions@.len() ==> {
                &&& (#[trigger] partitions@[k]).root >= 0
                &&& partitions@[k].start == 0
                &&& partitions@[k].len >= 0
            },
    ensures
        layout::extends(old(w)@, final(w)@, (80 * partitions@.len()) as int),
        forall|k: int|
            0 <= k < partitions@.len() ==> layout::partition_at(
                final(w)@,
                old(w)@.len() + 80 * k,
                #[trigger] partitions@[k],
            ),
{
    let ghost at = w@.len() as int;
    let mut i: usize = 0;
    while i < partitions.len()
        invariant
            i <= partitions@.len(),
            at == old(w)@.len(),
            forall|k: int|
                0 <= k < partitions@.len() ==> {
                    &&& (#[trigger] partitions@[k]).root >= 0
                    &&& partitions@[k].start == 0
                    &&& partitions@[k].len >= 0
                },
            layout::extends(old(w)@, w@, 80 * i),
            forall|k: int|
                0 <= k < i ==> layout::partition_at(w@, at + 80 * k, #[trigger] partitions@[k]),
        decreases partitions@.len() - i,
    {
        let ghost before = w@;
        let part = partitions[i];
        let _ = w.write_partition_entry(
            part.key,
            part.root as usize,
            part.len as usize,
            part.min,
            part.max,
        );
        proof {
            assert forall|k: int| 0 <= k < i + 1 implies layout::partition_at(
                w@,
                at + 80 * k,
                #[trigger] partitions@[k],
            ) by {
                if k < i {
                    lemma_partition_moves(before, w@, at + 80 * k, partitions@[k]);
                }
            }
        }
        i = i + 1;
    }
}

/// Writes the nodes' records.
fn write_nodes(w: &mut IndexWriter, nodes: &Vec<Node>)
    requires
        forall|k: int|
            0 <= k < nodes@.len() ==> (#[trigger] nodes@[k]).start >= 0 && nodes@[k].len >= 0,
    ensures
        layout::extends(old(w)@, final(w)@, (80 * nodes@.len()) as int),
        forall|k: int|
            0 <= k < nodes@.len() ==> layout::node_at(
                final(w)@,
                old(w)@.len() + 80 * k,
                #[trigger] nodes@[k],
            ),
{
    let ghost at = w@.len() as int;
    let mut i: usize = 0;
    while i < nodes.len()
        invariant
            i <= nodes@.len(),
            at == old(w)@.len(),
            forall|k: int|
                0 <= k < nodes@.len() ==> (#[trigger] nodes@[k]).start >= 0 && nodes@[k].len >= 0,
            layout::extends(old(w)@, w@, 80 * i),
            forall|k: int| 0 <= k < i ==> layout::node_at(w@, at + 80 * k, #[trigger] nodes@[k]),
        decreases nodes@.len() - i,
    {
        let ghost before = w@;
        let node = nodes[i];
        let _ = w.write_node_entry(
            node.left,
            node.right,
            node.start as usize,
            node.len as usize,
            node.min,
            node.max,
        );
        proof {
            assert forall|k: int| 0 <= k < i + 1 implies layout::node_at(
                w@,
                at + 80 * k,
                #[trigger] nodes@[k],
            ) by {
                if k < i {
                    lemma_node_moves(before, w@, at + 80 * k, nodes@[k]);
                }
            }
        }
        i = i + 1;
    }
}

/// Writes one block: pair by pair, and each pair lane by lane.
fn write_block(w: &mut IndexWriter, lanes: &Vec<Lane>, b: usize, at: Ghost<int>)
    requires
        8 * b + 8 <= lanes@.len(),
        old(w)@.len() == at@ + 224 * b,
    ensures
        layout::extends(old(w)@, final(w)@, 224),
        forall|pair: int, l: int|
            0 <= pair < 7 && 0 <= l < 8 ==> #[trigger] layout::pair_at(
                final(w)@,
                true,
                at@,
                lanes@,
                b as int,
                pair,
                l,
            ),
{
    let total: usize = lanes.len();
    let mut i: usize = 0;
    while i < 56
        invariant
            i <= 56,
            8 * b + 8 <= total,
            total == lanes@.len(),
            old(w)@.len() == at@ + 224 * b,
            layout::extends(old(w)@, w@, 4 * i),
            forall|pair: int, l: int|
                0 <= pair < 7 && 0 <= l < 8 && 8 * pair + l < i ==> #[trigger] layout::pair_at(
                    w@,
                    true,
                    at@,
                    lanes@,
                    b as int,
                    pair,
                    l,
                ),
        decreases 56 - i,
    {
        let ghost before = w@;
        let now: usize = i / 8;
        let lane: usize = i % 8;
        let first: i16 = lanes[8 * b + lane].vector[2 * now];
        let second: i16 = lanes[8 * b + lane].vector[2 * now + 1];
        let _ = w.write_i16(first);
        let ghost between = w@;
        let _ = w.write_i16(second);
        proof {
            assert forall|pair: int, l: int|
                0 <= pair < 7 && 0 <= l < 8 && 8 * pair + l < i + 1 implies #[trigger] layout::pair_at(
                w@,
                true,
                at@,
                lanes@,
                b as int,
                pair,
                l,
            ) by {
                if 8 * pair + l < i {
                    lemma_pair_moves(before, w@, at@, lanes@, b as int, pair, l);
                } else {
                    assert(pair == now && l == lane);
                    let o = at@ + 224 * b + 4 * i;
                    assert(o == at@ + 224 * b + 32 * pair + 4 * l);
                    assert(layout::i16_at(between, o) == first);
                    assert(w@[o] == between[o] && w@[o + 1] == between[o + 1]);
                }
            }
        }
        i = i + 1;
    }
}

/// Writes the vectors of all blocks.
fn write_vectors(w: &mut IndexWriter, lanes: &Vec<Lane>, block_count: usize)
    requires
        lanes@.len() == 8 * block_count,
    ensures
        layout::extends(old(w)@, final(w)@, 224 * block_count),
        forall|b: int, pair: int, l: int|
            0 <= b < block_count && 0 <= pair < 7 && 0 <= l < 8 ==> #[trigger] layout::pair_at(
                final(w)@,
                true,
                old(w)@.len() as int,
                lanes@,
                b,
                pair,
                l,
            ),
{
    let ghost at = w@.len() as int;
    let mut i: usize = 0;
    while i < block_count
        invariant
            i <= block_count,
            lanes@.len() == 8 * block_count,
            at == old(w)@.len(),
            layout::extends(old(w)@, w@, 224 * i),
            forall|b: int, pair: int, l: int|
                0 <= b < i && 0 <= pair < 7 && 0 <= l < 8 ==> #[trigger] layout::pair_at(
                    w@,
                    true,
                    at,
                    lanes@,
                    b,
                    pair,
                    l,
                ),
        decreases block_count - i,
    {
        let ghost before = w@;
        write_block(w, lanes, i, Ghost(at));
        proof {
            assert forall|b: int, pair: int, l: int|
                0 <= b < i + 1 && 0 <= pair < 7 && 0 <= l < 8 implies #[trigger] layout::pair_at(
                w@,
                true,
                at,
                lanes@,
                b,
                pair,
                l,
            ) by {
                if b < i {
                    lemma_pair_moves(before, w@, at, lanes@, b, pair, l);
                }
            }
        }
        i = i + 1;
    }
}

/// Writes the labels.
fn write_labels(w: &mut IndexWriter, lanes: &Vec<Lane>)
    ensures
        layout::extends(old(w)@, final(w)@, lanes@.len() as int),
        forall|k: int|
            0 <= k < lanes@.len() ==> (#[trigger] lanes@[k]).label == final(w)@[old(w)@.len() + k],
{
    let ghost at = w@.len() as int;
    let mut i: usize = 0;
    while i < lanes.len()
        invariant
            i <= lanes@.len(),
            at == old(w)@.len(),
            layout::extends(old(w)@, w@, i as int),
            forall|k: int| 0 <= k < i ==> (#[trigger] lanes@[k]).label == w@[at + k],
        decreases lanes@.len() - i,
    {
        let _ = w.write_u8(lanes[i].label);
        i = i + 1;
    }
}

/// Writes the reference indices.
fn write_indices(w: &mut IndexWriter, lanes: &Vec<Lane>)
    ensures
        layout::extends(old(w)@, final(w)@, (4 * lanes@.len()) as int),
        forall|k: int|
            0 <= k < lanes@.len() ==> (#[trigger] lanes@[k]).ref_index == layout::u32_at(
                final(w)@,
                old(w)@.len() + 4 * k,
            ),
{
    let ghost at = w@.len() as int;
    let mut i: usize = 0;
    while i < lanes.len()
        invariant
            i <= lanes@.len(),
            at == old(w)@.len(),
            layout::extends(old(w)@, w@, 4 * i),
            forall|k: int|
                0 <= k < i ==> (#[trigger] lanes@[k]).ref_index == layout::u32_at(w@, at + 4 * k),
        decreases lanes@.len() - i,
    {
        let ghost before = w@;
        let _ = w.write_u32(lanes[i].ref_index);
        proof {
            assert forall|k: int| 0 <= k < i + 1 implies (#[trigger] lanes@[k]).ref_index
                == layout::u32_at(w@, at + 4 * k) by {
                if k < i {
                    lemma_number_moves(before, w@, at + 4 * k);
                }
            }
        }
        i = i + 1;
    }
}

/// Writes the nodes' class bits.
fn write_classes(w: &mut IndexWriter, nodes: &Vec<Node>)
    ensures
        layout::extends(old(w)@, final(w)@, nodes@.len() as int),
        forall|k: int|
            0 <= k < nodes@.len() ==> (#[trigger] nodes@[k]).class_bits == final(w)@[old(w)@.len()
                + k],
{
    let ghost at = w@.len() as int;
    let mut i: usize = 0;
    while i < nodes.len()
        invariant
            i <= nodes@.len(),
            at == old(w)@.len(),
            layout::extends(old(w)@, w@, i as int),
            forall|k: int| 0 <= k < i ==> (#[trigger] nodes@[k]).class_bits == w@[at + k],
        decreases nodes@.len() - i,
    {
        let _ = w.write_u8(nodes[i].class_bits);
        i = i + 1;
    }
}

/// The header of a file with these contents.
spec fn head_holds(c: Contents, bytes: Seq<u8>) -> bool {
    let a = c.amount_cuts@.len() as int;
    let d = c.dow_cuts@.len() as int;
    let p = c.predicates@.len() as int;
    let head = 42 + 2 * (a + d) + 4 * p;
    &&& bytes.len() >= head
    &&& layout::u64_at(bytes, 0) == layout::MAGIC_V5
    &&& layout::i32_at(bytes, 8) == crate::SCALE
    &&& layout::i32_at(bytes, 12) == crate::PACKED_DIMS
    &&& layout::i32_at(bytes, 16) == c.reference_count
    &&& layout::i32_at(bytes, 20) == c.partitions@.len()
    &&& layout::i32_at(bytes, 24) == c.forest.nodes@.len()
    &&& 8 * layout::i32_at(bytes, 28) == c.forest.lanes@.len()
    &&& layout::i16_at(bytes, 32) == c.scheme_id
    &&& layout::i16_at(bytes, 34) == c.scheme_param
    &&& layout::i16_at(bytes, 36) == a
    &&& layout::i16_at(bytes, 38) == p
    &&& layout::i16_at(bytes, 40 + 4 * p) == d
    &&& forall|i: int|
        0 <= i < a ==> #[trigger] c.amount_cuts@[i] == layout::i16_at(bytes, 42 + 4 * p + 2 * i)
    &&& forall|i: int|
        0 <= i < d ==> #[trigger] c.dow_cuts@[i] == layout::i16_at(
            bytes,
            42 + 4 * p + 2 * a + 2 * i,
        )
    &&& forall|i: int|
        0 <= i < p ==> layout::predicate_at(bytes, 40 + 4 * i, #[trigger] c.predicates@[i])
}

proof fn lemma_head_moves(c: Contents, a: Seq<u8>, b: Seq<u8>)
    requires
        head_holds(c, a),
        b.len() >= a.len(),
        same_bytes(a, b, 0, a.len() as int),
    ensures
        head_holds(c, b),
{
    lemma_number_moves(a, b, 0);
    lemma_number_moves(a, b, 4);
    lemma_number_moves(a, b, 8);
    lemma_number_moves(a, b, 12);
    lemma_number_moves(a, b, 16);
    lemma_number_moves(a, b, 20);
    lemma_number_moves(a, b, 24);
    lemma_number_moves(a, b, 28);
    lemma_number_moves(a, b, 32);
    lemma_number_moves(a, b, 36);
    let n = c.amount_cuts@.len() as int;
    let d = c.dow_cuts@.len() as int;
    let p = c.predicates@.len() as int;
    assert(a[40 + 4 * p] == b[40 + 4 * p] && a[41 + 4 * p] == b[41 + 4 * p]);
    let at = 42 + 4 * p;
    assert forall|i: int| 0 <= i < n implies #[trigger] c.amount_cuts@[i] == layout::i16_at(
        b,
        at + 2 * i,
    ) by {
        assert(a[at + 2 * i] == b[at + 2 * i] && a[at + 2 * i + 1] == b[at + 2 * i + 1]);
    }
    assert forall|i: int| 0 <= i < d implies #[trigger] c.dow_cuts@[i] == layout::i16_at(
        b,
        at + 2 * n + 2 * i,
    ) by {
        let o = at + 2 * n + 2 * i;
        assert(a[o] == b[o] && a[o + 1] == b[o + 1]);
    }
    assert forall|i: int| 0 <= i < p implies layout::predicate_at(
        b,
        40 + 4 * i,
        #[trigger] c.predicates@[i],
    ) by {
        lemma_number_moves(a, b, 40 + 4 * i);
        let o = 40 + 4 * i;
        assert(a[o] == b[o] && a[o + 1] == b[o + 1]);
    }
}

/// The header with its counts filled in.
proof fn lemma_head_counted(
    c: Contents,
    cuts: Seq<i16>,
    h0: Seq<u8>,
    h1: Seq<u8>,
    h2: Seq<u8>,
    h3: Seq<u8>,
    block_count: int,
)
    requires
        writable(c),
        c.forest.lanes@.len() == 8 * block_count,
        cuts == c.amount_cuts@ + c.dow_cuts@,
        h0.len() == 42 + 2 * cuts.len() + 4 * c.predicates@.len(),
        crate::index::format::counts_at(
            h0,
            0,
            c.reference_count,
            c.scheme_id,
            c.scheme_param,
            c.amount_cuts@.len() as i16,
            c.predicates@.len() as int,
        ),
        forall|i: int|
            0 <= i < c.predicates@.len() ==> crate::index::format::tree_predicate_at(
                h0,
                40 + 4 * i,
                #[trigger] c.predicates@[i],
            ),
        layout::i16_at(h0, (40 + 4 * c.predicates@.len()) as int) == c.dow_cuts@.len(),
        forall|i: int|
            0 <= i < cuts.len() ==> #[trigger] cuts[i] == layout::i16_at(
                h0,
                42 + 4 * c.predicates@.len() + 2 * i,
            ),
        crate::index::format::replaced(h0, h1, 20),
        layout::i32_at(h1, 20) == c.partitions@.len(),
        crate::index::format::replaced(h1, h2, 24),
        layout::i32_at(h2, 24) == c.forest.nodes@.len(),
        crate::index::format::replaced(h2, h3, 28),
        layout::i32_at(h3, 28) == block_count,
    ensures
        head_holds(c, h3),
{
    assert(same_bytes(h0, h3, 0, 20)) by {
        assert forall|k: int| 0 <= k < 20 implies #[trigger] h0[k] == h3[k] by {
            assert(h1[k] == h0[k] && h2[k] == h1[k] && h3[k] == h2[k]);
        }
    }
    assert(same_bytes(h0, h3, 32, h0.len() as int)) by {
        assert forall|k: int| 32 <= k < h0.len() implies #[trigger] h0[k] == h3[k] by {
            assert(h1[k] == h0[k] && h2[k] == h1[k] && h3[k] == h2[k]);
        }
    }
    assert(same_bytes(h1, h3, 20, 24)) by {
        assert forall|k: int| 20 <= k < 24 implies #[trigger] h1[k] == h3[k] by {
            assert(h2[k] == h1[k] && h3[k] == h2[k]);
        }
    }
    assert(same_bytes(h2, h3, 24, 28)) by {
        assert forall|k: int| 24 <= k < 28 implies #[trigger] h2[k] == h3[k] by {
            assert(h3[k] == h2[k]);
        }
    }
    lemma_head_numbers(c, h0, h1, h2, h3, block_count);
    let n = c.amount_cuts@.len() as int;
    let d = c.dow_cuts@.len() as int;
    let p = c.predicates@.len() as int;
    let at = 42 + 4 * p;
    assert(h0[at - 2] == h3[at - 2] && h0[at - 1] == h3[at - 1]);
    assert forall|k: int| 0 <= k < n implies #[trigger] c.amount_cuts@[k] == layout::i16_at(
        h3,
        at + 2 * k,
    ) by {
        assert(cuts[k] == c.amount_cuts@[k]);
        assert(h0[at + 2 * k] == h3[at + 2 * k] && h0[at + 2 * k + 1] == h3[at + 2 * k + 1]);
    }
    assert forall|k: int| 0 <= k < d implies #[trigger] c.dow_cuts@[k] == layout::i16_at(
        h3,
        at + 2 * n + 2 * k,
    ) by {
        assert(cuts[n + k] == c.dow_cuts@[k]);
        let o = at + 2 * (n + k);
        assert(h0[o] == h3[o] && h0[o + 1] == h3[o + 1]);
    }
    assert forall|k: int| 0 <= k < p implies layout::predicate_at(
        h3,
        40 + 4 * k,
        #[trigger] c.predicates@[k],
    ) by {
        let o = 40 + 4 * k;
        lemma_number_moves(h0, h3, o);
        assert(h0[o] == h3[o] && h0[o + 1] == h3[o + 1]);
    }
}

proof fn lemma_head_numbers(
    c: Contents,
    h0: Seq<u8>,
    h1: Seq<u8>,
    h2: Seq<u8>,
    h3: Seq<u8>,
    block_count: int,
)
    requires
        writable(c),
        h0.len() >= 42,
        crate::index::format::counts_at(
            h0,
            0,
            c.reference_count,
            c.scheme_id,
            c.scheme_param,
            c.amount_cuts@.len() as i16,
            c.predicates@.len() as int,
        ),
        same_bytes(h0, h3, 0, 20),
        same_bytes(h0, h3, 32, h0.len() as int),
        same_bytes(h1, h3, 20, 24),
        same_bytes(h2, h3, 24, 28),
    ensures
        layout::u64_at(h3, 0) == layout::MAGIC_V5,
        layout::i32_at(h3, 8) == crate::SCALE,
        layout::i32_at(h3, 12) == crate::PACKED_DIMS,
        layout::i32_at(h3, 16) == c.reference_count,
        layout::i32_at(h3, 20) == layout::i32_at(h1, 20),
        layout::i32_at(h3, 24) == layout::i32_at(h2, 24),
        layout::i16_at(h3, 32) == c.scheme_id,
        layout::i16_at(h3, 34) == c.scheme_param,
        layout::i16_at(h3, 36) == c.amount_cuts@.len(),
        layout::i16_at(h3, 38) == c.predicates@.len(),
{
    lemma_number_moves(h0, h3, 0);
    lemma_number_moves(h0, h3, 4);
    lemma_number_moves(h0, h3, 8);
    lemma_number_moves(h0, h3, 12);
    lemma_number_moves(h0, h3, 16);
    lemma_number_moves(h1, h3, 20);
    lemma_number_moves(h2, h3, 24);
    lemma_number_moves(h0, h3, 32);
    lemma_number_moves(h0, h3, 36);
}

/// The cuts through amounts, then those through week days.
fn join_cuts(c: &Contents) -> (r: Vec<i16>)
    ensures
        r@ == c.amount_cuts@ + c.dow_cuts@,
{
    let mut cuts: Vec<i16> = Vec::new();
    let mut i: usize = 0;
    while i < c.amount_cuts.len()
        invariant
            i <= c.amount_cuts@.len(),
            cuts@ =~= c.amount_cuts@.subrange(0, i as int),
        decreases c.amount_cuts@.len() - i,
    {
        cuts.push(c.amount_cuts[i]);
        i = i + 1;
    }
    let mut j: usize = 0;
    while j < c.dow_cuts.len()
        invariant
            j <= c.dow_cuts@.len(),
            cuts@ =~= c.amount_cuts@ + c.dow_cuts@.subrange(0, j as int),
        decreases c.dow_cuts@.len() - j,
    {
        cuts.push(c.dow_cuts[j]);
        j = j + 1;
    }
    assert(cuts@ =~= c.amount_cuts@ + c.dow_cuts@);
    cuts
}

/// Writes the header.
fn write_head(c: &Contents, block_count: usize) -> (r: IndexWriter)
    requires
        writable(*c),
        c.forest.lanes@.len() == 8 * block_count,
    ensures
        head_holds(*c, r@),
        r@.len() == 42 + 2 * (c.amount_cuts@.len() + c.dow_cuts@.len()) + 4 * c.predicates@.len(),
{
    let cuts = join_cuts(c);
    let mut w = IndexWriter::new();
    let _ = w.write_header(
        c.reference_count,
        c.scheme_id,
        c.scheme_param,
        c.amount_cuts.len() as i16,
        c.dow_cuts.len() as i16,
        cuts.as_slice(),
        &[],
        c.predicates.as_slice(),
    );
    let ghost h0 = w@;
    let _ = w.write_partition_count(c.partitions.len() as i32);
    let ghost h1 = w@;
    let _ = w.write_node_count(c.forest.nodes.len() as i32);
    let ghost h2 = w@;
    let _ = w.write_block_count(block_count as i32);
    proof {
        lemma_head_counted(*c, cuts@, h0, h1, h2, w@, block_count as int);
    }
    w
}

/// Where the sections of a file with these contents begin.
spec fn places_of(c: Contents) -> layout::Sections {
    layout::sections(
        true,
        (c.amount_cuts@.len() + c.dow_cuts@.len()) as int,
        c.predicates@.len() as int,
        c.partitions@.len() as int,
        c.forest.nodes@.len() as int,
        c.forest.lanes@.len() as int / 8,
    )
}

proof fn lemma_head_read(c: Contents, f: Seq<u8>)
    requires
        writable(c),
        head_holds(c, f),
        f.len() == places_of(c).end,
        f.len() <= usize::MAX,
    ensures
        layout::is_v5(f),
        layout::sections_of(f) == places_of(c),
        c.header_in(f),
        layout::fault(f) is None,
{
    assert(layout::i32_at(f, 28) == c.forest.lanes@.len() as int / 8);
    assert(layout::amount_cut_count(f) == c.amount_cuts@.len());
    assert(layout::dow_cut_count(f) == c.dow_cuts@.len());
    assert(layout::predicate_count(f) == c.predicates@.len());
    assert(layout::sections_of(f) == places_of(c));
    assert(layout::header_fault(f) is None);
    assert(layout::section_fault(f) is None);
    assert(c.header_in(f));
}

proof fn lemma_records_read(
    c: Contents,
    parts: Seq<u8>,
    nodes: Seq<u8>,
    f: Seq<u8>,
)
    requires
        layout::is_v5(f),
        layout::sections_of(f) == places_of(c),
        parts.len() == places_of(c).nodes,
        nodes.len() == places_of(c).vectors,
        same_bytes(parts, f, 0, parts.len() as int),
        same_bytes(nodes, f, 0, nodes.len() as int),
        forall|k: int|
            0 <= k < c.partitions@.len() ==> layout::partition_at(
                parts,
                places_of(c).partitions + 80 * k,
                #[trigger] c.partitions@[k],
            ),
        forall|k: int|
            0 <= k < c.forest.nodes@.len() ==> layout::node_at(
                nodes,
                places_of(c).nodes + 80 * k,
                #[trigger] c.forest.nodes@[k],
            ),
        forall|k: int|
            0 <= k < c.forest.nodes@.len() ==> (#[trigger] c.forest.nodes@[k]).class_bits
                == f[places_of(c).classes + k],
    ensures
        c.records_in(f),
{
    let at = places_of(c);
    assert forall|i: int| 0 <= i < c.partitions@.len() implies layout::partition_at(
        f,
        at.partitions + 80 * i,
        #[trigger] c.partitions@[i],
    ) by {
        lemma_partition_moves(parts, f, at.partitions + 80 * i, c.partitions@[i]);
    }
    assert forall|i: int| 0 <= i < c.forest.nodes@.len() implies layout::node_at(
        f,
        at.nodes + 80 * i,
        #[trigger] c.forest.nodes@[i],
    ) by {
        lemma_node_moves(nodes, f, at.nodes + 80 * i, c.forest.nodes@[i]);
    }
}

proof fn lemma_lanes_read(
    lanes: Seq<Lane>,
    at_vectors: int,
    at_labels: int,
    at_indices: int,
    block_count: int,
    vectors: Seq<u8>,
    labels: Seq<u8>,
    indices: Seq<u8>,
    f: Seq<u8>,
)
    requires
        lanes.len() == 8 * block_count,
        at_vectors >= 0,
        at_indices >= 0,
        vectors.len() == at_vectors + 224 * block_count,
        labels.len() == at_labels + 8 * block_count,
        at_labels >= 0,
        indices.len() == at_indices + 32 * block_count,
        same_bytes(vectors, f, 0, vectors.len() as int),
        same_bytes(labels, f, 0, labels.len() as int),
        same_bytes(indices, f, 0, indices.len() as int),
        forall|b: int, pair: int, l: int|
            0 <= b < block_count && 0 <= pair < 7 && 0 <= l < 8 ==> #[trigger] layout::pair_at(
                vectors,
                true,
                at_vectors,
                lanes,
                b,
                pair,
                l,
            ),
        forall|k: int|
            0 <= k < lanes.len() ==> (#[trigger] lanes[k]).label == labels[at_labels + k],
        forall|k: int|
            0 <= k < lanes.len() ==> (#[trigger] lanes[k]).ref_index == layout::u32_at(
                indices,
                at_indices + 4 * k,
            ),
    ensures
        layout::lanes_at(f, true, at_vectors, at_labels, at_indices, lanes),
{
    assert forall|b: int, pair: int, l: int|
        0 <= b && 8 * b < lanes.len() && 0 <= pair < 7 && 0 <= l < 8 implies #[trigger] layout::pair_at(
        f,
        true,
        at_vectors,
        lanes,
        b,
        pair,
        l,
    ) by {
        assert(layout::pair_at(vectors, true, at_vectors, lanes, b, pair, l));
        let o = at_vectors + 224 * b + 32 * pair + 4 * l;
        assert(0 <= o && o + 4 <= vectors.len());
        lemma_pair_moves(vectors, f, at_vectors, lanes, b, pair, l);
    }
    assert forall|i: int| 0 <= i < lanes.len() implies {
        &&& (#[trigger] lanes[i]).label == f[at_labels + i]
        &&& lanes[i].ref_index == layout::u32_at(f, at_indices + 4 * i)
    } by {
        assert(labels[at_labels + i] == f[at_labels + i]);
        lemma_number_moves(indices, f, at_indices + 4 * i);
    }
}

proof fn lemma_prefix(a: Seq<u8>, b: Seq<u8>, n: int, f: Seq<u8>)
    requires
        layout::extends(a, b, n),
        n >= 0,
        same_bytes(b, f, 0, b.len() as int),
    ensures
        same_bytes(a, f, 0, a.len() as int),
{
    assert forall|k: int| 0 <= k < a.len() implies #[trigger] a[k] == f[k] by {
        assert(b[k] == a[k]);
    }
}

/// Writes the contents of an index.
pub fn write_contents(c: &Contents) -> (r: Vec<u8>)
    requires
        writable(*c),
    ensures
        c.stored_in(r@),
        layout::fault(r@) is None,
{
    let block_count: usize = c.forest.lanes.len() / 8;
    let mut w = write_head(c, block_count);
    let ghost head = w@;
    write_partitions(&mut w, &c.partitions);
    let ghost parts = w@;
    write_nodes(&mut w, &c.forest.nodes);
    let ghost nodes = w@;
    write_vectors(&mut w, &c.forest.lanes, block_count);
    let ghost vectors = w@;
    write_labels(&mut w, &c.forest.lanes);
    let ghost labels = w@;
    w.align_to(4);
    let ghost padded = w@;
    write_indices(&mut w, &c.forest.lanes);
    let ghost indices = w@;
    write_classes(&mut w, &c.forest.nodes);
    let total: usize = w.len();
    proof {
        let f = w@;
        assert(f.len() == total);
        assert(same_bytes(indices, f, 0, indices.len() as int));
        lemma_prefix(padded, indices, indices.len() - padded.len(), f);
        lemma_prefix(labels, padded, padded.len() - labels.len(), f);
        lemma_prefix(vectors, labels, labels.len() - vectors.len(), f);
        lemma_prefix(nodes, vectors, vectors.len() - nodes.len(), f);
        lemma_prefix(parts, nodes, nodes.len() - parts.len(), f);
        lemma_prefix(head, parts, parts.len() - head.len(), f);
        lemma_head_moves(*c, head, f);
        lemma_head_read(*c, f);
        lemma_records_read(*c, parts, nodes, f);
        let at = places_of(*c);
        lemma_lanes_read(
            c.forest.lanes@,
            at.vectors,
            at.labels,
            at.indices,
            block_count as int,
            vectors,
            labels,
            indices,
            f,
        );
    }
    w.into_bytes()
}

/// What a file holds is determined by the file: reading back what was written gives the same
/// contents.
pub proof fn law_file_determines_contents(a: Contents, b: Contents, bytes: Seq<u8>)
    requires
        a.stored_in(bytes),
        b.stored_in(bytes),
    ensures
        a.reference_count == b.reference_count,
        a.scheme_id == b.scheme_id,
        a.scheme_param == b.scheme_param,
        a.amount_cuts@ == b.amount_cuts@,
        a.dow_cuts@ == b.dow_cuts@,
        a.predicates@ == b.predicates@,
        a.partitions@ == b.partitions@,
        a.forest.nodes@ == b.forest.nodes@,
        a.forest.lanes@ == b.forest.lanes@,
{
    let at = layout::sections_of(bytes);
    assert(a.amount_cuts@ =~= b.amount_cuts@);
    assert(a.dow_cuts@ =~= b.dow_cuts@);
    assert forall|i: int| 0 <= i < a.predicates@.len() implies a.predicates@[i]
        == b.predicates@[i] by {}
    assert(a.predicates@ =~= b.predicates@);
    assert forall|i: int| 0 <= i < a.partitions@.len() implies a.partitions@[i]
        == b.partitions@[i] by {
        let (x, y) = (a.partitions@[i], b.partitions@[i]);
        lemma_same_array(bytes, at.partitions + 80 * i + 16, x.min, y.min);
        lemma_same_array(bytes, at.partitions + 80 * i + 48, x.max, y.max);
    }
    assert(a.partitions@ =~= b.partitions@);
    assert forall|i: int| 0 <= i < a.forest.nodes@.len() implies a.forest.nodes@[i]
        == b.forest.nodes@[i] by {
        let (x, y) = (a.forest.nodes@[i], b.forest.nodes@[i]);
        lemma_same_array(bytes, at.nodes + 80 * i + 16, x.min, y.min);
        lemma_same_array(bytes, at.nodes + 80 * i + 48, x.max, y.max);
    }
    assert(a.forest.nodes@ =~= b.forest.nodes@);
    let (la, lb) = (a.forest.lanes@, b.forest.lanes@);
    assert forall|i: int| 0 <= i < la.len() implies la[i] == lb[i] by {
        let (x, y) = (la[i], lb[i]);
        let block = i / 8;
        let l = i % 8;
        assert forall|d: int| 0 <= d < 14 implies x.vector@[d] == y.vector@[d] by {
            let pair = d / 2;
            assert(layout::pair_at(bytes, layout::is_v5(bytes), at.vectors, la, block, pair, l));
            assert(layout::pair_at(bytes, layout::is_v5(bytes), at.vectors, lb, block, pair, l));
            assert(8 * block + l == i);
            assert(d == 2 * pair || d == 2 * pair + 1);
        }
        assert(x.vector@ =~= y.vector@);
        assert(x.vector == y.vector);
        assert(x.label == y.label);
        assert(x.ref_index == y.ref_index);
    }
    assert(la =~= lb);
}

proof fn lemma_same_array(bytes: Seq<u8>, at: int, a: crate::QueryVector, b: crate::QueryVector)
    requires
        layout::vector_at(bytes, at, a@),
        layout::vector_at(bytes, at, b@),
    ensures
        a == b,
{
    assert forall|d: int| 0 <= d < 16 implies a@[d] == b@[d] by {}
    assert(a@ =~= b@);
}

} // verus!
