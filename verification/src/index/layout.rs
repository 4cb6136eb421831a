//! How an index lies in a file.

use vstd::prelude::*;
use vstd::string::StringExecFns;

use crate::index::knn::Lane;
use crate::index::partition_scheme::TreePredicate;
use crate::index::tree::Forest;
use crate::index::tree::Node;
use crate::text;
use crate::QueryVector;
use crate::DIMS;
use crate::PACKED_DIMS;
use crate::SCALE;

verus! {

/// The size of a partition's record.
pub const PARTITION_STRIDE: usize = 80;

/// The size of a node's record.
pub const NODE_STRIDE: usize = 80;

/// The size of a block's vectors.
pub const BLOCK_STRIDE: usize = 224;

/// The first eight bytes of a file of version 3, as a number whose low byte stands first.
pub const MAGIC_V3: u64 = 0x3354_5343_5053_4e52;

/// The first eight bytes of a file of version 5, as a number whose low byte stands first.
pub const MAGIC_V5: u64 = 0x3554_5343_5053_4e52;

/// `n` bytes were added behind the others.
pub open spec fn extends(before: Seq<u8>, after: Seq<u8>, n: int) -> bool {
    &&& after.len() == before.len() + n
    &&& forall|i: int| 0 <= i < before.len() ==> #[trigger] after[i] == before[i]
}

/// The number in two bytes, the low one first.
pub open spec fn u16_at(bytes: Seq<u8>, at: int) -> int {
    bytes[at] + 0x100 * bytes[at + 1]
}

/// The number in four bytes, the low one first.
pub open spec fn u32_at(bytes: Seq<u8>, at: int) -> int {
    u16_at(bytes, at) + 0x1_0000 * u16_at(bytes, at + 2)
}

/// The number in eight bytes, the low one first.
pub open spec fn u64_at(bytes: Seq<u8>, at: int) -> int {
    u32_at(bytes, at) + 0x1_0000_0000 * u32_at(bytes, at + 4)
}

/// The signed number in two bytes, the low one first.
pub open spec fn i16_at(bytes: Seq<u8>, at: int) -> int {
    let v = u16_at(bytes, at);
    if v >= 0x8000 {
        v - 0x1_0000
    } else {
        v
    }
}

/// The signed number in four bytes, the low one first.
pub open spec fn i32_at(bytes: Seq<u8>, at: int) -> int {
    let v = u32_at(bytes, at);
    if v >= 0x8000_0000 {
        v - 0x1_0000_0000
    } else {
        v
    }
}

/// A signed number taken for an unsigned one of machine size.
pub open spec fn as_usize(v: int) -> int {
    if v >= 0 {
        v
    } else {
        v + usize::MAX + 1
    }
}

/// `at` moved on to the next multiple of `align`.
pub open spec fn aligned(at: int, align: int) -> int {
    at + (align - at % align) % align
}

/// The number in two bytes.
fn u16_of(bytes: &[u8], at: usize) -> (r: u32)
    requires
        at + 2 <= bytes@.len(),
    ensures
        r == u16_at(bytes@, at as int),
        r <= 0xffff,
{
    bytes[at] as u32 + 0x100 * bytes[at + 1] as u32
}

/// The number in four bytes.
pub fn u32_of(bytes: &[u8], at: usize) -> (r: u32)
    requires
        at + 4 <= bytes@.len(),
    ensures
        r == u32_at(bytes@, at as int),
{
    let total: usize = bytes.len();
    assert(at + 4 <= total);
    u16_of(bytes, at) + 0x1_0000 * u16_of(bytes, at + 2)
}

/// The number in eight bytes.
pub fn u64_of(bytes: &[u8], at: usize) -> (r: u64)
    requires
        at + 8 <= bytes@.len(),
    ensures
        r == u64_at(bytes@, at as int),
{
    let total: usize = bytes.len();
    assert(at + 8 <= total);
    u32_of(bytes, at) as u64 + 0x1_0000_0000 * u32_of(bytes, at + 4) as u64
}

/// The signed number in two bytes.
pub fn i16_of(bytes: &[u8], at: usize) -> (r: i16)
    requires
        at + 2 <= bytes@.len(),
    ensures
        r == i16_at(bytes@, at as int),
{
    let v: u32 = u16_of(bytes, at);
    if v >= 0x8000 {
        (v as i32 - 0x1_0000) as i16
    } else {
        v as i16
    }
}

/// The signed number in four bytes.
pub fn i32_of(bytes: &[u8], at: usize) -> (r: i32)
    requires
        at + 4 <= bytes@.len(),
    ensures
        r == i32_at(bytes@, at as int),
{
    let v: u32 = u32_of(bytes, at);
    if v >= 0x8000_0000 {
        (v as i64 - 0x1_0000_0000) as i32
    } else {
        v as i32
    }
}

/// A signed number taken for an unsigned one of machine size.
pub fn usize_of(v: i32) -> (r: usize)
    ensures
        r == as_usize(v as int),
{
    if v >= 0 {
        v as usize
    } else {
        usize::MAX - (-(v as i64 + 1)) as usize
    }
}

/// Reads a number of four bytes and moves on.
pub fn read_i32(bytes: &[u8], cursor: &mut usize) -> (r: Result<i32, String>)
    ensures
        r is Ok <==> *old(cursor) + 4 <= bytes@.len(),
        r matches Ok(v) ==> v == i32_at(bytes@, *old(cursor) as int) && *final(cursor) == *old(
            cursor,
        ) + 4,
        r matches Err(e) ==> e@ == "unexpected EOF (i32)"@ && *final(cursor) == *old(cursor),
{
    if bytes.len() < 4 || *cursor > bytes.len() - 4 {
        return Err(String::from_str("unexpected EOF (i32)"));
    }
    let v: i32 = i32_of(bytes, *cursor);
    *cursor = *cursor + 4;
    Ok(v)
}

/// Reads a number of two bytes and moves on.
pub fn read_i16(bytes: &[u8], cursor: &mut usize) -> (r: Result<i16, String>)
    ensures
        r is Ok <==> *old(cursor) + 2 <= bytes@.len(),
        r matches Ok(v) ==> v == i16_at(bytes@, *old(cursor) as int) && *final(cursor) == *old(
            cursor,
        ) + 2,
        r matches Err(e) ==> e@ == "unexpected EOF (i16)"@ && *final(cursor) == *old(cursor),
{
    if bytes.len() < 2 || *cursor > bytes.len() - 2 {
        return Err(String::from_str("unexpected EOF (i16)"));
    }
    let v: i16 = i16_of(bytes, *cursor);
    *cursor = *cursor + 2;
    Ok(v)
}

/// Reads a byte and moves on.
pub fn read_u8(bytes: &[u8], cursor: &mut usize) -> (r: Result<u8, String>)
    ensures
        r is Ok <==> *old(cursor) + 1 <= bytes@.len(),
        r matches Ok(v) ==> v == bytes@[*old(cursor) as int] && *final(cursor) == *old(cursor) + 1,
        r matches Err(e) ==> e@ == "unexpected EOF (u8)"@ && *final(cursor) == *old(cursor),
{
    if *cursor >= bytes.len() {
        return Err(String::from_str("unexpected EOF (u8)"));
    }
    let v: u8 = bytes[*cursor];
    *cursor = *cursor + 1;
    Ok(v)
}

/// Moves `cursor` on to the next multiple of `align`.
pub fn align_cursor(cursor: usize, align: usize) -> (r: usize)
    requires
        align > 0,
        aligned(cursor as int, align as int) <= usize::MAX,
    ensures
        r == aligned(cursor as int, align as int),
{
    cursor + ((align - (cursor % align)) % align)
}

/// A partition's record: its key, the root of its tree, and the box of its references. `start` is
/// not used.
#[derive(Clone, Copy, Debug)]
pub struct Partition {
    pub key: u32,
    pub root: i32,
    pub start: i32,
    pub len: i32,
    pub min: QueryVector,
    pub max: QueryVector,
}

/// What an index file holds.
pub struct Contents {
    pub reference_count: i32,
    pub scheme_id: i16,
    pub scheme_param: i16,
    pub amount_cuts: Vec<i16>,
    pub dow_cuts: Vec<i16>,
    pub predicates: Vec<TreePredicate>,
    pub partitions: Vec<Partition>,
    pub forest: Forest,
}

/// Sixteen coordinates, two bytes each.
pub open spec fn vector_at(bytes: Seq<u8>, at: int, vector: Seq<i16>) -> bool {
    forall|d: int| 0 <= d < PACKED_DIMS ==> #[trigger] vector[d] == i16_at(bytes, at + 2 * d)
}

/// A partition's record.
pub open spec fn partition_at(bytes: Seq<u8>, at: int, partition: Partition) -> bool {
    &&& partition.key == u32_at(bytes, at)
    &&& partition.root == i32_at(bytes, at + 4)
    &&& partition.start == i32_at(bytes, at + 8)
    &&& partition.len == i32_at(bytes, at + 12)
    &&& vector_at(bytes, at + 16, partition.min@)
    &&& vector_at(bytes, at + 48, partition.max@)
}

/// A node's record.
pub open spec fn node_at(bytes: Seq<u8>, at: int, node: Node) -> bool {
    &&& node.left == i32_at(bytes, at)
    &&& node.right == i32_at(bytes, at + 4)
    &&& node.start == i32_at(bytes, at + 8)
    &&& node.len == i32_at(bytes, at + 12)
    &&& vector_at(bytes, at + 16, node.min@)
    &&& vector_at(bytes, at + 48, node.max@)
}

/// A question's record.
pub open spec fn predicate_at(bytes: Seq<u8>, at: int, predicate: TreePredicate) -> bool {
    &&& predicate.dim == bytes[at]
    &&& predicate.enabled == (bytes[at + 1] != 0)
    &&& predicate.threshold == i16_at(bytes, at + 2)
}

/// Two coordinates of a reference in a block: in a file of version 5, they stand side by side.
pub open spec fn pair_at(
    bytes: Seq<u8>,
    v5: bool,
    at: int,
    lanes: Seq<Lane>,
    b: int,
    pair: int,
    l: int,
) -> bool {
    let vector = lanes[8 * b + l].vector@;
    if v5 {
        &&& vector[2 * pair] == i16_at(bytes, at + 224 * b + 32 * pair + 4 * l)
        &&& vector[2 * pair + 1] == i16_at(bytes, at + 224 * b + 32 * pair + 4 * l + 2)
    } else {
        &&& vector[2 * pair] == i16_at(bytes, at + 224 * b + 32 * pair + 2 * l)
        &&& vector[2 * pair + 1] == i16_at(bytes, at + 224 * b + 32 * pair + 2 * l + 16)
    }
}

/// The references whose vectors, labels and indices stand at these places.
pub open spec fn lanes_at(
    bytes: Seq<u8>,
    v5: bool,
    vectors: int,
    labels: int,
    indices: int,
    lanes: Seq<Lane>,
) -> bool {
    &&& forall|b: int, pair: int, l: int|
        0 <= b && 8 * b < lanes.len() && 0 <= pair < 7 && 0 <= l < 8 ==> #[trigger] pair_at(
            bytes,
            v5,
            vectors,
            lanes,
            b,
            pair,
            l,
        )
    &&& forall|i: int|
        0 <= i < lanes.len() ==> {
            &&& (#[trigger] lanes[i]).label == bytes[labels + i]
            &&& lanes[i].ref_index == (if v5 {
                u32_at(bytes, indices + 4 * i)
            } else {
                0
            })
        }
}

/// Where the sections of a file begin, from the counts in its header.
pub struct Sections {
    pub cuts: int,
    pub predicates: int,
    pub partitions: int,
    pub nodes: int,
    pub vectors: int,
    pub labels: int,
    pub indices: int,
    pub classes: int,
    pub end: int,
}

/// Where the cuts begin.
pub open spec fn cuts_at(v5: bool, predicate_count: int) -> int {
    if v5 {
        42 + 4 * predicate_count
    } else {
        36
    }
}

/// Where the sections of a file begin, from the counts in its header.
pub open spec fn sections(
    v5: bool,
    cut_count: int,
    predicate_count: int,
    partition_count: int,
    node_count: int,
    block_count: int,
) -> Sections {
    let cuts = cuts_at(v5, predicate_count);
    let predicates = 40;
    let partitions = cuts + 2 * cut_count;
    let nodes = partitions + 80 * partition_count;
    let vectors = nodes + 80 * node_count;
    let labels = vectors + 224 * block_count;
    let behind = labels + 8 * block_count;
    let indices = if v5 {
        aligned(behind, 4)
    } else {
        behind
    };
    let classes = if v5 {
        indices + 32 * block_count
    } else {
        behind
    };
    Sections {
        cuts,
        predicates,
        partitions,
        nodes,
        vectors,
        labels,
        indices,
        classes,
        end: if v5 {
            classes + node_count
        } else {
            behind
        },
    }
}

/// The file is of version 5.
pub open spec fn is_v5(bytes: Seq<u8>) -> bool {
    u64_at(bytes, 0) == MAGIC_V5
}

/// How many cuts through amounts the header announces.
pub open spec fn amount_cut_count(bytes: Seq<u8>) -> int {
    i16_at(bytes, if is_v5(bytes) {
        36
    } else {
        32
    })
}

/// How many questions the header announces.
pub open spec fn predicate_count(bytes: Seq<u8>) -> int {
    if is_v5(bytes) {
        i16_at(bytes, 38)
    } else {
        0
    }
}

/// How many cuts through week days the header announces, behind the questions.
pub open spec fn dow_cut_count(bytes: Seq<u8>) -> int {
    i16_at(bytes, if is_v5(bytes) {
        40 + 4 * predicate_count(bytes)
    } else {
        34
    })
}

/// Where the sections of the file begin.
pub open spec fn sections_of(bytes: Seq<u8>) -> Sections {
    sections(
        is_v5(bytes),
        amount_cut_count(bytes) + dow_cut_count(bytes),
        predicate_count(bytes),
        i32_at(bytes, 20),
        i32_at(bytes, 24),
        i32_at(bytes, 28),
    )
}

impl Contents {
    /// The file's header holds these counts, cuts and questions.
    pub open spec fn header_in(self, bytes: Seq<u8>) -> bool {
        let at = sections_of(bytes);
        &&& self.reference_count == i32_at(bytes, 16)
        &&& self.scheme_id == (if is_v5(bytes) {
            i16_at(bytes, 32)
        } else {
            0
        })
        &&& self.scheme_param == (if is_v5(bytes) {
            i16_at(bytes, 34)
        } else {
            0
        })
        &&& self.amount_cuts@.len() == amount_cut_count(bytes)
        &&& self.dow_cuts@.len() == dow_cut_count(bytes)
        &&& self.predicates@.len() == predicate_count(bytes)
        &&& self.partitions@.len() == i32_at(bytes, 20)
        &&& self.forest.nodes@.len() == i32_at(bytes, 24)
        &&& self.forest.lanes@.len() == 8 * i32_at(bytes, 28)
        &&& forall|i: int|
            0 <= i < self.amount_cuts@.len() ==> #[trigger] self.amount_cuts@[i] == i16_at(
                bytes,
                at.cuts + 2 * i,
            )
        &&& forall|i: int|
            0 <= i < self.dow_cuts@.len() ==> #[trigger] self.dow_cuts@[i] == i16_at(
                bytes,
                at.cuts + 2 * amount_cut_count(bytes) + 2 * i,
            )
        &&& forall|i: int|
            0 <= i < self.predicates@.len() ==> predicate_at(
                bytes,
                at.predicates + 4 * i,
                #[trigger] self.predicates@[i],
            )
    }

    /// The file holds these partitions and nodes.
    pub open spec fn records_in(self, bytes: Seq<u8>) -> bool {
        let at = sections_of(bytes);
        &&& forall|i: int|
            0 <= i < self.partitions@.len() ==> partition_at(
                bytes,
                at.partitions + 80 * i,
                #[trigger] self.partitions@[i],
            )
        &&& forall|i: int|
            0 <= i < self.forest.nodes@.len() ==> {
                &&& node_at(bytes, at.nodes + 80 * i, #[trigger] self.forest.nodes@[i])
                &&& self.forest.nodes@[i].class_bits == (if is_v5(bytes) {
                    bytes[at.classes + i]
                } else {
                    0
                })
            }
    }

    /// The file holds these references.
    pub open spec fn lanes_in(self, bytes: Seq<u8>) -> bool {
        let at = sections_of(bytes);
        lanes_at(bytes, is_v5(bytes), at.vectors, at.labels, at.indices, self.forest.lanes@)
    }

    /// This is what the file holds.
    pub open spec fn stored_in(self, bytes: Seq<u8>) -> bool {
        &&& self.header_in(bytes)
        &&& self.records_in(bytes)
        &&& self.lanes_in(bytes)
    }
}

/// Why a file does not hold an index.
#[derive(Clone, Copy, Debug, PartialEq, Eq, Structural)]
pub enum LoadError {
    /// The file has fewer than eight bytes.
    FileTooShort,
    /// The file begins with other eight bytes; they are given as a number, the low byte first.
    UnsupportedMagic(u64),
    /// The file ends inside the counts of four bytes.
    UnexpectedEofI32,
    /// The file ends inside the counts of two bytes or the cuts.
    UnexpectedEofI16,
    /// The file ends inside the questions.
    TruncatedPredicates,
    /// The coordinates have another scale.
    InvalidScale(i32),
    /// The vectors have another number of stored coordinates.
    InvalidPackedDims,
    /// There is no room for that many partitions.
    PartitionCountOverflow,
    /// The file ends inside the partitions.
    TruncatedPartitions,
    /// There is no room for that many nodes.
    NodeCountOverflow,
    /// The file ends inside the nodes.
    TruncatedNodes,
    /// The file ends inside the vectors.
    TruncatedVectors,
    /// The file ends inside the labels.
    TruncatedLabels,
    /// The file ends inside the reference indices.
    TruncatedIndices,
    /// The file ends inside the class bits.
    TruncatedClasses,
    /// A partition that can be searched is no tree of existing nodes over existing blocks.
    MalformedTrees,
}

/// What is wrong with the fixed part of the header and the cuts.
pub open spec fn header_fault(bytes: Seq<u8>) -> Option<LoadError> {
    let a = amount_cut_count(bytes);
    let d = dow_cut_count(bytes);
    let p = predicate_count(bytes);
    if bytes.len() < 8 {
        Some(LoadError::FileTooShort)
    } else if u64_at(bytes, 0) != MAGIC_V3 && u64_at(bytes, 0) != MAGIC_V5 {
        Some(LoadError::UnsupportedMagic(u64_at(bytes, 0) as u64))
    } else if bytes.len() < 32 {
        Some(LoadError::UnexpectedEofI32)
    } else if bytes.len() < 36 || (is_v5(bytes) && bytes.len() < 40) {
        Some(LoadError::UnexpectedEofI16)
    } else if is_v5(bytes) && (p < 0 || 40 + 4 * p > bytes.len()) {
        Some(LoadError::TruncatedPredicates)
    } else if bytes.len() < cuts_at(is_v5(bytes), p) || a < 0 || d < 0 || cuts_at(
        is_v5(bytes),
        p,
    ) + 2 * (a + d) > bytes.len() {
        Some(LoadError::UnexpectedEofI16)
    } else if i32_at(bytes, 8) != SCALE {
        Some(LoadError::InvalidScale(i32_at(bytes, 8) as i32))
    } else if i32_at(bytes, 12) != PACKED_DIMS {
        Some(LoadError::InvalidPackedDims)
    } else {
        None
    }
}

/// What is wrong with the sections behind the header.
pub open spec fn section_fault(bytes: Seq<u8>) -> Option<LoadError> {
    let at = sections_of(bytes);
    let partition_count = i32_at(bytes, 20);
    let node_count = i32_at(bytes, 24);
    let block_count = i32_at(bytes, 28);
    if as_usize(partition_count) * 80 > usize::MAX {
        Some(LoadError::PartitionCountOverflow)
    } else if partition_count < 0 || at.nodes > bytes.len() {
        Some(LoadError::TruncatedPartitions)
    } else if as_usize(node_count) * 80 > usize::MAX {
        Some(LoadError::NodeCountOverflow)
    } else if node_count < 0 || at.vectors > bytes.len() {
        Some(LoadError::TruncatedNodes)
    } else if block_count < 0 || at.labels > bytes.len() {
        Some(LoadError::TruncatedVectors)
    } else if at.labels + 8 * block_count > bytes.len() {
        Some(LoadError::TruncatedLabels)
    } else if is_v5(bytes) && at.classes > bytes.len() {
        Some(LoadError::TruncatedIndices)
    } else if is_v5(bytes) && at.end > bytes.len() {
        Some(LoadError::TruncatedClasses)
    } else {
        None
    }
}

/// The first thing that is wrong with a file.
pub open spec fn fault(bytes: Seq<u8>) -> Option<LoadError> {
    match header_fault(bytes) {
        Some(e) => Some(e),
        None => section_fault(bytes),
    }
}

/// Reads sixteen coordinates.
fn read_vector(bytes: &[u8], at: usize) -> (r: QueryVector)
    requires
        at + 32 <= bytes@.len(),
    ensures
        vector_at(bytes@, at as int, r@),
{
    let mut r: QueryVector = [0i16; PACKED_DIMS];
    let mut d: usize = 0;
    let total: usize = bytes.len();
    while d < PACKED_DIMS
        invariant
            d <= PACKED_DIMS,
            total == bytes@.len(),
            at + 32 <= total,
            r@.len() == PACKED_DIMS,
            forall|k: int| 0 <= k < d ==> #[trigger] r@[k] == i16_at(bytes@, at + 2 * k),
        decreases PACKED_DIMS - d,
    {
        let v: i16 = i16_of(bytes, at + 2 * d);
        r[d] = v;
        d = d + 1;
    }
    r
}

/// Reads cuts.
fn read_cuts(bytes: &[u8], at: usize, count: usize) -> (r: Vec<i16>)
    requires
        at + 2 * count <= bytes@.len(),
    ensures
        r@.len() == count,
        forall|i: int| 0 <= i < count ==> #[trigger] r@[i] == i16_at(bytes@, at + 2 * i),
{
    let mut r: Vec<i16> = Vec::new();
    let mut i: usize = 0;
    let total: usize = bytes.len();
    while i < count
        invariant
            i <= count,
            total == bytes@.len(),
            at + 2 * count <= total,
            r@.len() == i,
            forall|k: int| 0 <= k < i ==> #[trigger] r@[k] == i16_at(bytes@, at + 2 * k),
        decreases count - i,
    {
        r.push(i16_of(bytes, at + 2 * i));
        i = i + 1;
    }
    r
}

/// Reads questions.
fn read_predicates(bytes: &[u8], at: usize, count: usize) -> (r: Vec<TreePredicate>)
    requires
        at + 4 * count <= bytes@.len(),
    ensures
        r@.len() == count,
        forall|i: int| 0 <= i < count ==> predicate_at(bytes@, at + 4 * i, #[trigger] r@[i]),
{
    let mut r: Vec<TreePredicate> = Vec::new();
    let mut i: usize = 0;
    let total: usize = bytes.len();
    while i < count
        invariant
            i <= count,
            total == bytes@.len(),
            at + 4 * count <= total,
            r@.len() == i,
            forall|k: int| 0 <= k < i ==> predicate_at(bytes@, at + 4 * k, #[trigger] r@[k]),
        decreases count - i,
    {
        let here: usize = at + 4 * i;
        r.push(
            TreePredicate {
                dim: bytes[here],
                threshold: i16_of(bytes, here + 2),
                enabled: bytes[here + 1] != 0,
            },
        );
        i = i + 1;
    }
    r
}

/// Reads partitions.
fn read_partitions(bytes: &[u8], at: usize, count: usize) -> (r: Vec<Partition>)
    requires
        at + 80 * count <= bytes@.len(),
    ensures
        r@.len() == count,
        forall|i: int| 0 <= i < count ==> partition_at(bytes@, at + 80 * i, #[trigger] r@[i]),
{
    let mut r: Vec<Partition> = Vec::new();
    let mut i: usize = 0;
    let total: usize = bytes.len();
    while i < count
        invariant
            i <= count,
            total == bytes@.len(),
            at + 80 * count <= total,
            r@.len() == i,
            forall|k: int| 0 <= k < i ==> partition_at(bytes@, at + 80 * k, #[trigger] r@[k]),
        decreases count - i,
    {
        let here: usize = at + PARTITION_STRIDE * i;
        r.push(
            Partition {
                key: u32_of(bytes, here),
                root: i32_of(bytes, here + 4),
                start: i32_of(bytes, here + 8),
                len: i32_of(bytes, here + 12),
                min: read_vector(bytes, here + 16),
                max: read_vector(bytes, here + 48),
            },
        );
        i = i + 1;
    }
    r
}

/// Reads nodes, with their class bits where there are some.
fn read_nodes(bytes: &[u8], at: usize, classes: Option<usize>, count: usize) -> (r: Vec<Node>)
    requires
        at + 80 * count <= bytes@.len(),
        classes matches Some(c) ==> c + count <= bytes@.len(),
    ensures
        r@.len() == count,
        forall|i: int|
            0 <= i < count ==> {
                &&& node_at(bytes@, at + 80 * i, #[trigger] r@[i])
                &&& r@[i].class_bits == (match classes {
                    Some(c) => bytes@[c + i],
                    None => 0,
                })
            },
{
    let mut r: Vec<Node> = Vec::new();
    let mut i: usize = 0;
    let total: usize = bytes.len();
    while i < count
        invariant
            i <= count,
            total == bytes@.len(),
            at + 80 * count <= total,
            classes matches Some(c) ==> c + count <= total,
            r@.len() == i,
            forall|k: int|
                0 <= k < i ==> {
                    &&& node_at(bytes@, at + 80 * k, #[trigger] r@[k])
                    &&& r@[k].class_bits == (match classes {
                        Some(c) => bytes@[c + k],
                        None => 0,
                    })
                },
        decreases count - i,
    {
        let here: usize = at + NODE_STRIDE * i;
        let class_bits: u8 = match classes {
            Some(c) => bytes[c + i],
            None => 0,
        };
        r.push(
            Node {
                left: i32_of(bytes, here),
                right: i32_of(bytes, here + 4),
                start: i32_of(bytes, here + 8),
                len: i32_of(bytes, here + 12),
                min: read_vector(bytes, here + 16),
                max: read_vector(bytes, here + 48),
                class_bits,
            },
        );
        i = i + 1;
    }
    r
}

/// A pair of coordinates of a vector in lane `l` of a block.
spec fn pair_of(
    bytes: Seq<u8>,
    v5: bool,
    at: int,
    vector: Seq<i16>,
    b: int,
    pair: int,
    l: int,
) -> bool {
    if v5 {
        &&& vector[2 * pair] == i16_at(bytes, at + 224 * b + 32 * pair + 4 * l)
        &&& vector[2 * pair + 1] == i16_at(bytes, at + 224 * b + 32 * pair + 4 * l + 2)
    } else {
        &&& vector[2 * pair] == i16_at(bytes, at + 224 * b + 32 * pair + 2 * l)
        &&& vector[2 * pair + 1] == i16_at(bytes, at + 224 * b + 32 * pair + 2 * l + 16)
    }
}

/// Reads the vector in lane `l` of block `b`.
fn read_lane(bytes: &[u8], v5: bool, at: usize, b: usize, l: usize) -> (r: [i16; DIMS])
    requires
        at + 224 * b + 224 <= bytes@.len(),
        l < 8,
    ensures
        forall|pair: int|
            0 <= pair < 7 ==> #[trigger] pair_of(
                bytes@,
                v5,
                at as int,
                r@,
                b as int,
                pair,
                l as int,
            ),
{
    let mut r: [i16; DIMS] = [0i16; DIMS];
    let mut pair: usize = 0;
    let total: usize = bytes.len();
    let block: usize = at + BLOCK_STRIDE * b;
    while pair < DIMS / 2
        invariant
            pair <= 7,
            total == bytes@.len(),
            block == at + 224 * b,
            block + 224 <= total,
            l < 8,
            r@.len() == DIMS,
            forall|k: int|
                0 <= k < pair ==> #[trigger] pair_of(
                    bytes@,
                    v5,
                    at as int,
                    r@,
                    b as int,
                    k,
                    l as int,
                ),
        decreases 7 - pair,
    {
        let ghost before = r@;
        let here: usize = block + 32 * pair + if v5 {
            4 * l
        } else {
            2 * l
        };
        let next: usize = here + if v5 {
            2
        } else {
            16
        };
        let first: i16 = i16_of(bytes, here);
        let second: i16 = i16_of(bytes, next);
        r[2 * pair] = first;
        r[2 * pair + 1] = second;
        proof {
            assert forall|k: int| 0 <= k < pair + 1 implies #[trigger] pair_of(
                bytes@,
                v5,
                at as int,
                r@,
                b as int,
                k,
                l as int,
            ) by {
                if k < pair {
                    assert(pair_of(bytes@, v5, at as int, before, b as int, k, l as int));
                }
            }
        }
        pair = pair + 1;
    }
    r
}

/// Reads the references of `count` blocks.
fn read_lanes(
    bytes: &[u8],
    v5: bool,
    vectors: usize,
    labels: usize,
    indices: usize,
    count: usize,
) -> (r: Vec<Lane>)
    requires
        vectors + 224 * count <= bytes@.len(),
        labels + 8 * count <= bytes@.len(),
        v5 ==> indices + 32 * count <= bytes@.len(),
    ensures
        r@.len() == 8 * count,
        forall|b: int, pair: int, l: int|
            0 <= b && 8 * b < r@.len() && 0 <= pair < 7 && 0 <= l < 8 ==> #[trigger] pair_at(
                bytes@,
                v5,
                vectors as int,
                r@,
                b,
                pair,
                l,
            ),
        forall|i: int|
            0 <= i < r@.len() ==> {
                &&& (#[trigger] r@[i]).label == bytes@[labels + i]
                &&& r@[i].ref_index == (if v5 {
                    u32_at(bytes@, indices + 4 * i)
                } else {
                    0
                })
            },
{
    let mut r: Vec<Lane> = Vec::new();
    let total: usize = bytes.len();
    let mut i: usize = 0;
    let end: usize = 8 * count;
    while i < end
        invariant
            i <= end,
            end == 8 * count,
            total == bytes@.len(),
            vectors + 224 * count <= total,
            labels + 8 * count <= total,
            v5 ==> indices + 32 * count <= total,
            r@.len() == i,
            forall|k: int, pair: int|
                0 <= k < i && 0 <= pair < 7 ==> #[trigger] pair_of(
                    bytes@,
                    v5,
                    vectors as int,
                    r@[k].vector@,
                    k / 8,
                    pair,
                    k % 8,
                ),
            forall|k: int|
                0 <= k < i ==> {
                    &&& (#[trigger] r@[k]).label == bytes@[labels + k]
                    &&& r@[k].ref_index == (if v5 {
                        u32_at(bytes@, indices + 4 * k)
                    } else {
                        0
                    })
                },
        decreases end - i,
    {
        let vector: [i16; DIMS] = read_lane(bytes, v5, vectors, i / 8, i % 8);
        let ref_index: u32 = if v5 {
            u32_of(bytes, indices + 4 * i)
        } else {
            0
        };
        let ghost before = r@;
        r.push(Lane { vector, label: bytes[labels + i], ref_index });
        proof {
            assert forall|k: int, pair: int| 0 <= k < i + 1 && 0 <= pair < 7 implies #[trigger] pair_of(
                bytes@,
                v5,
                vectors as int,
                r@[k].vector@,
                k / 8,
                pair,
                k % 8,
            ) by {
                if k < i {
                    assert(r@[k] == before[k]);
                    assert(pair_of(
                        bytes@,
                        v5,
                        vectors as int,
                        before[k].vector@,
                        k / 8,
                        pair,
                        k % 8,
                    ));
                } else {
                    assert(pair_of(
                        bytes@,
                        v5,
                        vectors as int,
                        vector@,
                        (i / 8) as int,
                        pair,
                        (i % 8) as int,
                    ));
                }
            }
        }
        i = i + 1;
    }
    proof {
        assert forall|b: int, pair: int, l: int|
            0 <= b && 8 * b < r@.len() && 0 <= pair < 7 && 0 <= l < 8 implies #[trigger] pair_at(
            bytes@,
            v5,
            vectors as int,
            r@,
            b,
            pair,
            l,
        ) by {
            let k = 8 * b + l;
            assert(k / 8 == b && k % 8 == l);
            assert(pair_of(
                bytes@,
                v5,
                vectors as int,
                r@[k].vector@,
                k / 8,
                pair,
                k % 8,
            ));
        }
    }
    r
}

/// Checks the header and the cuts.
fn check_header(bytes: &[u8]) -> (r: Option<LoadError>)
    ensures
        r == header_fault(bytes@),
{
    let total: usize = bytes.len();
    if total < 8 {
        return Some(LoadError::FileTooShort);
    }
    let magic: u64 = u64_of(bytes, 0);
    if magic != MAGIC_V3 && magic != MAGIC_V5 {
        return Some(LoadError::UnsupportedMagic(magic));
    }
    if total < 32 {
        return Some(LoadError::UnexpectedEofI32);
    }
    let v5: bool = magic == MAGIC_V5;
    if total < 36 || (v5 && total < 40) {
        return Some(LoadError::UnexpectedEofI16);
    }
    let p: i16 = if v5 {
        i16_of(bytes, 38)
    } else {
        0
    };
    if v5 && (p < 0 || 40 + 4 * p as usize > total) {
        return Some(LoadError::TruncatedPredicates);
    }
    let fixed: usize = if v5 {
        42 + 4 * p as usize
    } else {
        36
    };
    if total < fixed {
        return Some(LoadError::UnexpectedEofI16);
    }
    let a: i16 = i16_of(bytes, if v5 {
        36
    } else {
        32
    });
    let d: i16 = i16_of(bytes, fixed - 2);
    if a < 0 || d < 0 || fixed + 2 * (a as usize + d as usize) > total {
        return Some(LoadError::UnexpectedEofI16);
    }
    let scale: i32 = i32_of(bytes, 8);
    if scale != SCALE as i32 {
        return Some(LoadError::InvalidScale(scale));
    }
    if i32_of(bytes, 12) != PACKED_DIMS as i32 {
        return Some(LoadError::InvalidPackedDims);
    }
    None
}

/// Reads an index file.
#[verifier::rlimit(60)]
#[verifier::spinoff_prover]
pub fn load(bytes: &[u8]) -> (r: Result<Contents, LoadError>)
    ensures
        match r {
            Ok(contents) => fault(bytes@) is None && contents.stored_in(bytes@),
            Err(e) => fault(bytes@) == Some(e),
        },
{
    match check_header(bytes) {
        Some(e) => {
            return Err(e);
        },
        None => {},
    }
    let total: usize = bytes.len();
    let v5: bool = u64_of(bytes, 0) == MAGIC_V5;
    let reference_count: i32 = i32_of(bytes, 16);
    let partition_field: i32 = i32_of(bytes, 20);
    let node_field: i32 = i32_of(bytes, 24);
    let block_field: i32 = i32_of(bytes, 28);
    let a: usize = i16_of(bytes, if v5 {
        36
    } else {
        32
    }) as usize;
    let p: usize = if v5 {
        i16_of(bytes, 38) as usize
    } else {
        0
    };
    let cuts: usize = if v5 {
        42 + 4 * p
    } else {
        36
    };
    let d: usize = i16_of(bytes, cuts - 2) as usize;
    let predicates: usize = if v5 {
        40
    } else {
        0
    };
    let partitions: usize = cuts + 2 * (a + d);
    let ghost at = sections_of(bytes@);
    let partition_count: usize = usize_of(partition_field);
    let partition_bytes: usize = match partition_count.checked_mul(PARTITION_STRIDE) {
        Some(n) => n,
        None => {
            return Err(LoadError::PartitionCountOverflow);
        },
    };
    proof {
        assert(partition_field >= 0) by {
            if partition_field < 0 {
                assert(as_usize(partition_field as int) * 80 > usize::MAX);
            }
        }
    }
    if partition_bytes > total - partitions {
        return Err(LoadError::TruncatedPartitions);
    }
    let nodes: usize = partitions + partition_bytes;
    let node_count: usize = usize_of(node_field);
    let node_bytes: usize = match node_count.checked_mul(NODE_STRIDE) {
        Some(n) => n,
        None => {
            return Err(LoadError::NodeCountOverflow);
        },
    };
    proof {
        assert(node_field >= 0) by {
            if node_field < 0 {
                assert(as_usize(node_field as int) * 80 > usize::MAX);
            }
        }
    }
    if node_bytes > total - nodes {
        return Err(LoadError::TruncatedNodes);
    }
    let vectors: usize = nodes + node_bytes;
    if block_field < 0 {
        return Err(LoadError::TruncatedVectors);
    }
    let block_count: usize = block_field as usize;
    let block_bytes: usize = match block_count.checked_mul(BLOCK_STRIDE) {
        Some(n) => n,
        None => {
            return Err(LoadError::TruncatedVectors);
        },
    };
    if block_bytes > total - vectors {
        return Err(LoadError::TruncatedVectors);
    }
    let labels: usize = vectors + block_bytes;
    if 8 * block_count > total - labels {
        return Err(LoadError::TruncatedLabels);
    }
    let behind: usize = labels + 8 * block_count;
    let mut indices: usize = behind;
    let mut classes: Option<usize> = None;
    if v5 {
        let padding: usize = (4 - behind % 4) % 4;
        if padding > total - behind || 32 * block_count > total - behind - padding {
            return Err(LoadError::TruncatedIndices);
        }
        indices = behind + padding;
        let behind_indices: usize = indices + 32 * block_count;
        if node_count > total - behind_indices {
            return Err(LoadError::TruncatedClasses);
        }
        classes = Some(behind_indices);
    }
    let contents = Contents {
        reference_count,
        scheme_id: if v5 {
            i16_of(bytes, 32)
        } else {
            0
        },
        scheme_param: if v5 {
            i16_of(bytes, 34)
        } else {
            0
        },
        amount_cuts: read_cuts(bytes, cuts, a),
        dow_cuts: read_cuts(bytes, cuts + 2 * a, d),
        predicates: read_predicates(bytes, predicates, p),
        partitions: read_partitions(bytes, partitions, partition_count),
        forest: Forest {
            nodes: read_nodes(bytes, nodes, classes, node_count),
            lanes: read_lanes(bytes, v5, vectors, labels, indices, block_count),
        },
    };
    assert(contents.header_in(bytes@));
    assert(contents.records_in(bytes@));
    assert(contents.lanes_in(bytes@));
    Ok(contents)
}

/// Byte `i` of a number, the low one first.
pub open spec fn byte_of(v: int, i: nat) -> nat
    decreases i,
{
    if i == 0 {
        (v % 0x100) as nat
    } else {
        byte_of(v / 0x100, (i - 1) as nat)
    }
}

/// The first `n` bytes of a number, as a list.
pub open spec fn listed_bytes(v: int, n: nat) -> Seq<char>
    decreases n,
{
    if n <= 1 {
        text::decimal(byte_of(v, 0))
    } else {
        listed_bytes(v, (n - 1) as nat) + ", "@ + text::decimal(byte_of(v, (n - 1) as nat))
    }
}

impl LoadError {
    /// What the error is called.
    pub open spec fn text(self) -> Seq<char> {
        match self {
            LoadError::FileTooShort => "file too short"@,
            LoadError::UnsupportedMagic(magic) => "unsupported index magic: ["@ + listed_bytes(
                magic as int,
                8,
            ) + "]. Rebuild index with the preprocess binary"@,
            LoadError::UnexpectedEofI32 => "unexpected EOF (i32)"@,
            LoadError::UnexpectedEofI16 => "unexpected EOF (i16)"@,
            LoadError::TruncatedPredicates => "truncated predicates"@,
            LoadError::InvalidScale(scale) => "invalid index scale: expected "@
                + text::signed_decimal(SCALE as int) + ", got "@ + text::signed_decimal(
                scale as int,
            ),
            LoadError::InvalidPackedDims => "invalid packed dimensions"@,
            LoadError::PartitionCountOverflow => "partition_count overflow"@,
            LoadError::TruncatedPartitions => "truncated partitions"@,
            LoadError::NodeCountOverflow => "node_count overflow"@,
            LoadError::TruncatedNodes => "truncated nodes"@,
            LoadError::TruncatedVectors => "truncated vectors"@,
            LoadError::TruncatedLabels => "truncated labels"@,
            LoadError::TruncatedIndices => "truncated reference indices"@,
            LoadError::TruncatedClasses => "truncated class bits"@,
            LoadError::MalformedTrees => "malformed trees"@,
        }
    }

    /// What the error is called.
    pub fn message(&self) -> (r: String)
        ensures
            r@ == self.text(),
    {
        match self {
            LoadError::FileTooShort => String::from_str("file too short"),
            LoadError::UnsupportedMagic(magic) => {
                let mut s = String::from_str("unsupported index magic: [");
                let mut rest: u64 = *magic;
                let mut i: usize = 0;
                let ghost start = s@;
                while i < 8
                    invariant
                        i <= 8,
                        i == 0 ==> s@ == start,
                        i > 0 ==> s@ == start + listed_bytes(*magic as int, i as nat),
                        forall|k: nat| #[trigger] byte_of(rest as int, k) == byte_of(
                            *magic as int,
                            (k + i) as nat,
                        ),
                    decreases 8 - i,
                {
                    let ghost before = s@;
                    let ghost left = rest as int;
                    if i > 0 {
                        s.append(", ");
                    }
                    text::push_decimal(&mut s, rest % 0x100);
                    rest = rest / 0x100;
                    proof {
                        assert(byte_of(left, 0) == byte_of(*magic as int, i as nat));
                        if i == 0 {
                            assert(s@ =~= start + listed_bytes(*magic as int, 1));
                        } else {
                            assert(s@ =~= start + listed_bytes(*magic as int, (i + 1) as nat));
                        }
                        assert forall|k: nat| #[trigger]
                            byte_of(rest as int, k) == byte_of(*magic as int, (k + (i + 1)) as nat) by {
                            assert(byte_of(left, k + 1) == byte_of(*magic as int, (k + 1 + i) as nat));
                            assert(byte_of(left, k + 1) == byte_of(left / 0x100, k));
                        }
                    }
                    i = i + 1;
                }
                s.append("]. Rebuild index with the preprocess binary");
                s
            },
            LoadError::UnexpectedEofI32 => String::from_str("unexpected EOF (i32)"),
            LoadError::UnexpectedEofI16 => String::from_str("unexpected EOF (i16)"),
            LoadError::TruncatedPredicates => String::from_str("truncated predicates"),
            LoadError::InvalidScale(scale) => {
                let mut s = String::from_str("invalid index scale: expected ");
                text::push_signed(&mut s, SCALE as i64);
                s.append(", got ");
                text::push_signed(&mut s, *scale as i64);
                s
            },
            LoadError::InvalidPackedDims => String::from_str("invalid packed dimensions"),
            LoadError::PartitionCountOverflow => String::from_str("partition_count overflow"),
            LoadError::TruncatedPartitions => String::from_str("truncated partitions"),
            LoadError::NodeCountOverflow => String::from_str("node_count overflow"),
            LoadError::TruncatedNodes => String::from_str("truncated nodes"),
            LoadError::TruncatedVectors => String::from_str("truncated vectors"),
            LoadError::TruncatedLabels => String::from_str("truncated labels"),
            LoadError::TruncatedIndices => String::from_str("truncated reference indices"),
            LoadError::TruncatedClasses => String::from_str("truncated class bits"),
            LoadError::MalformedTrees => String::from_str("malformed trees"),
        }
    }
}

} // verus!
