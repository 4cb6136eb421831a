//! An index that answers queries.

use vstd::prelude::*;

use crate::index::knn;
use crate::index::knn::Lane;
use crate::index::layout;
use crate::index::layout::Contents;
use crate::index::layout::LoadError;
use crate::index::layout::Partition;
use crate::index::partition_scheme;
use crate::index::partition_scheme::MAX_TREE_DEPTH;
use crate::index::partition_scheme::TREE_SCHEME;
use crate::index::tree;
use crate::index::tree::Node;
use crate::settings;
use crate::text;
use crate::QueryVector;

verus! {

/// Partitions can be looked up by keys below this.
pub const KEY_LOOKUP_SIZE: usize = 1024;

/// In which order partitions are searched.
#[derive(Clone, Copy, Debug, PartialEq, Eq, Structural)]
pub enum SearchMode {
    /// All of them, in the order of the file, without regard to their boxes.
    Exact,
    /// Those whose boxes are near enough, the nearest box first.
    Specialist,
    /// The one with the query's key first, then as above.
    KeyFirst,
}

/// How an index is searched.
#[derive(Clone, Copy, Debug, PartialEq, Eq, Structural)]
pub struct SearchSettings {
    pub mode: SearchMode,
    /// Where this is positive, a search ends once all candidates are nearer.
    pub early_exit_threshold: i64,
    /// Subtrees that cannot change a unanimous verdict are set aside.
    pub label_defer: bool,
}

impl SearchSettings {
    /// The settings from the texts of `RINHA_SEARCH_MODE`, `RINHA_EARLY_EXIT_THRESHOLD` and
    /// `RINHA_LABEL_DEFER`.
    pub fn from_values(
        mode: Option<&str>,
        early_exit_threshold: Option<&str>,
        label_defer: Option<&str>,
    ) -> (r: Self)
        ensures
            r.mode == (if settings::said(mode) == Some("exact"@) {
                SearchMode::Exact
            } else if settings::said(mode) == Some("specialist"@) {
                SearchMode::Specialist
            } else {
                SearchMode::KeyFirst
            }),
            r.early_exit_threshold == (match settings::signed_value(
                settings::said(early_exit_threshold),
                i64::MAX as int,
            ) {
                Some(n) => n,
                None => 0,
            }),
            r.label_defer == (settings::said(label_defer) != Some("0"@)),
    {
        let mode: SearchMode = match mode {
            Some(s) => {
                proof {
                    reveal_strlit("exact");
                    reveal_strlit("specialist");
                    assert("exact"@.len() != "specialist"@.len());
                }
                if text::same_text(s, "exact") {
                    SearchMode::Exact
                } else if text::same_text(s, "specialist") {
                    SearchMode::Specialist
                } else {
                    SearchMode::KeyFirst
                }
            },
            None => SearchMode::KeyFirst,
        };
        let early_exit_threshold: i64 = match settings::signed_number(
            early_exit_threshold,
            i64::MAX,
        ) {
            Some(n) => n,
            None => 0,
        };
        SearchSettings {
            mode,
            early_exit_threshold,
            label_defer: !settings::is_zero_text(label_defer),
        }
    }
}

/// How large an index is.
#[derive(Clone, Copy, Debug, PartialEq, Eq, Structural)]
pub struct IndexMetadata {
    pub reference_count: usize,
    pub partition_count: usize,
    pub node_count: usize,
    pub block_count: usize,
}

/// The last of the partitions with a key; -1 where there is none.
pub open spec fn partition_of(partitions: Seq<Partition>, key: int) -> int
    decreases partitions.len(),
{
    if partitions.len() == 0 {
        -1
    } else if partitions.last().key == key {
        partitions.len() - 1
    } else {
        partition_of(partitions.drop_last(), key)
    }
}

/// Partition `i` can be searched: all partitions are, or it is the one that is found by its key.
pub open spec fn can_be_searched(
    partitions: Seq<Partition>,
    mode: SearchMode,
    i: int,
) -> bool {
    &&& 0 <= i < partitions.len()
    &&& mode == SearchMode::Exact || (partitions[i].key < KEY_LOOKUP_SIZE && partition_of(
        partitions,
        partitions[i].key as int,
    ) == i)
}

/// Every partition that can be searched has a tree.
pub open spec fn trees_stand(contents: Contents, mode: SearchMode) -> bool {
    forall|i: int| #[trigger]
        can_be_searched(contents.partitions@, mode, i) ==> tree::has_tree(
            contents.forest.nodes@,
            contents.forest.lanes@,
            contents.partitions@[i].root as int,
        )
}

/// What is wrong with contents that were read and are to be searched in this mode.
pub open spec fn contents_fault(contents: Contents, mode: SearchMode) -> Option<LoadError> {
    if trees_stand(contents, mode) {
        None
    } else {
        Some(LoadError::MalformedTrees)
    }
}

/// How deep the tree of questions is that a scheme's parameter stands for.
pub open spec fn depth_of(scheme_param: i16) -> nat {
    if scheme_param <= 0 {
        0
    } else if scheme_param > MAX_TREE_DEPTH {
        MAX_TREE_DEPTH as nat
    } else {
        scheme_param as nat
    }
}

/// An index in memory.
pub struct SpecialistIndex {
    pub contents: Contents,
    pub key_to_partition: [i32; KEY_LOOKUP_SIZE],
    pub active_keys: Vec<u32>,
    pub settings: SearchSettings,
}

pub proof fn lemma_partition_of(partitions: Seq<Partition>, key: int)
    ensures
        -1 <= partition_of(partitions, key) < partitions.len(),
        partition_of(partitions, key) >= 0 ==> partitions[partition_of(partitions, key)].key == key,
        partition_of(partitions, key) == -1 ==> forall|i: int|
            0 <= i < partitions.len() ==> (#[trigger] partitions[i]).key != key,
    decreases partitions.len(),
{
    if partitions.len() > 0 && partitions.last().key != key {
        let rest = partitions.drop_last();
        lemma_partition_of(rest, key);
        assert forall|i: int| 0 <= i < partitions.len() && partition_of(partitions, key) == -1
            implies (#[trigger] partitions[i]).key != key by {
            if i < rest.len() {
                assert(rest[i] == partitions[i]);
            }
        }
    }
}

/// Where no two partitions have the same key, each is the one with its key.
pub proof fn lemma_partition_of_distinct(partitions: Seq<Partition>, i: int)
    requires
        0 <= i < partitions.len(),
        forall|k: int, l: int|
            0 <= k < l < partitions.len() ==> partitions[k].key != partitions[l].key,
    ensures
        partition_of(partitions, partitions[i].key as int) == i,
    decreases partitions.len(),
{
    if i < partitions.len() - 1 {
        let rest = partitions.drop_last();
        assert(partitions[i].key != partitions.last().key);
        assert(rest[i] == partitions[i]);
        assert forall|k: int, l: int| 0 <= k < l < rest.len() implies rest[k].key != rest[l].key by {
            assert(rest[k] == partitions[k] && rest[l] == partitions[l]);
        }
        lemma_partition_of_distinct(rest, i);
    }
}

/// Node `i` is a leaf whose blocks exist, or has two subtrees that are known to be trees.
spec fn follows(nodes: Seq<Node>, lanes: Seq<Lane>, known: Seq<bool>, i: int) -> bool {
    if nodes[i].is_leaf() {
        tree::leaf_fits(nodes[i], lanes)
    } else {
        &&& nodes[i].left < nodes.len() && known[nodes[i].left as int]
        &&& nodes[i].right < nodes.len() && known[nodes[i].right as int]
    }
}

/// Where nothing more follows, what is not known to be a tree is none.
proof fn lemma_unknown(
    nodes: Seq<Node>,
    lanes: Seq<Lane>,
    known: Seq<bool>,
    i: int,
    levels: nat,
)
    requires
        known.len() == nodes.len(),
        forall|j: int|
            0 <= j < nodes.len() && #[trigger] follows(nodes, lanes, known, j) ==> known[j],
        0 <= i < nodes.len() ==> !known[i],
    ensures
        !tree::stands(nodes, lanes, i, levels),
    decreases levels,
{
    if levels > 0 && 0 <= i < nodes.len() {
        assert(!follows(nodes, lanes, known, i));
        if !nodes[i].is_leaf() {
            let (l, r) = (nodes[i].left as int, nodes[i].right as int);
            if l >= nodes.len() || !known[l] {
                lemma_unknown(nodes, lanes, known, l, (levels - 1) as nat);
            } else {
                lemma_unknown(nodes, lanes, known, r, (levels - 1) as nat);
            }
        }
    }
}

/// Tells whether a leaf's blocks exist.
fn check_leaf(node: &Node, lane_count: usize, lanes: Ghost<Seq<Lane>>) -> (r: bool)
    requires
        lanes@.len() == lane_count,
    ensures
        r == tree::leaf_fits(*node, lanes@),
{
    if node.len == 0 {
        return true;
    }
    if node.start < 0 || node.len < 0 {
        return false;
    }
    let blocks: u64 = (node.len as u64 + 7) / 8;
    (node.start as u64 + blocks) * 8 <= lane_count as u64
}

/// Tells whether a node is a leaf whose blocks exist, or has two subtrees that are known to be trees.
fn check_node(nodes: &Vec<Node>, lanes: &Vec<Lane>, known: &Vec<bool>, i: usize) -> (r: bool)
    requires
        i < nodes@.len(),
        nodes@.len() <= 0x7fff_ffff,
        known@.len() == nodes@.len(),
    ensures
        r == follows(nodes@, lanes@, known@, i as int),
{
    let node = nodes[i];
    if node.left < 0 || node.right < 0 {
        check_leaf(&node, lanes.len(), Ghost(lanes@))
    } else {
        let l: usize = node.left as usize;
        let r: usize = node.right as usize;
        l < nodes.len() && known[l] && r < nodes.len() && known[r]
    }
}

/// Finds the nodes that have a tree, by going from the last node to the first until nothing more
/// follows.
fn find_trees(nodes: &Vec<Node>, lanes: &Vec<Lane>) -> (r: Vec<bool>)
    requires
        nodes@.len() <= 0x7fff_ffff,
    ensures
        r@.len() == nodes@.len(),
        forall|i: int|
            0 <= i < nodes@.len() ==> #[trigger] r@[i] == tree::has_tree(nodes@, lanes@, i),
{
    let n: usize = nodes.len();
    let mut known: Vec<bool> = Vec::new();
    let mut k: usize = 0;
    while k < n
        invariant
            k <= n,
            known@.len() == k,
            forall|i: int| 0 <= i < k ==> !#[trigger] known@[i],
        decreases n - k,
    {
        known.push(false);
        k = k + 1;
    }
    let ghost mut found: Set<int> = Set::empty();
    let mut changed: bool = true;
    while changed
        invariant
            n == nodes@.len() <= 0x7fff_ffff,
            known@.len() == n,
            found.finite(),
            found.len() <= n,
            forall|i: int| #[trigger] found.contains(i) <==> 0 <= i < n && known@[i],
            forall|i: int|
                0 <= i < n && #[trigger] known@[i] ==> tree::stands(
                    nodes@,
                    lanes@,
                    i,
                    found.len(),
                ),
            !changed ==> forall|i: int|
                0 <= i < n && #[trigger] follows(nodes@, lanes@, known@, i) ==> known@[i],
        decreases
                n - found.len() + if changed {
                    1nat
                } else {
                    0
                },
    {
        let ghost before = found.len();
        changed = false;
        let mut i: usize = n;
        while i > 0
            invariant
                i <= n,
                n == nodes@.len() <= 0x7fff_ffff,
                known@.len() == n,
                found.finite(),
                before <= found.len() <= n,
                changed ==> before < found.len(),
                forall|j: int| #[trigger] found.contains(j) <==> 0 <= j < n && known@[j],
                forall|j: int|
                    0 <= j < n && #[trigger] known@[j] ==> tree::stands(
                        nodes@,
                        lanes@,
                        j,
                        found.len(),
                    ),
                !changed ==> forall|j: int|
                    i <= j < n && #[trigger] follows(nodes@, lanes@, known@, j) ==> known@[j],
            decreases i,
        {
            i = i - 1;
            if !known[i] && check_node(nodes, lanes, &known, i) {
                let ghost count = found.len();
                let ghost old_known = known@;
                proof {
                    assert(tree::stands(nodes@, lanes@, i as int, count + 1));
                    let all = vstd::set_lib::set_int_range(0, n as int);
                    vstd::set_lib::lemma_int_range(0, n as int);
                    assert(!found.contains(i as int));
                    let wider = found.insert(i as int);
                    assert(wider.subset_of(all));
                    vstd::set_lib::lemma_len_subset(wider, all);
                    found = wider;
                }
                known.set(i, true);
                changed = true;
                proof {
                    assert forall|j: int| 0 <= j < n && #[trigger] known@[j] implies tree::stands(
                        nodes@,
                        lanes@,
                        j,
                        found.len(),
                    ) by {
                        if j != i {
                            assert(old_known[j]);
                            tree::lemma_more_levels(nodes@, lanes@, j, count, count + 1);
                        }
                    }
                }
            }
        }
    }
    proof {
        assert forall|i: int| 0 <= i < n implies #[trigger] known@[i] == tree::has_tree(
            nodes@,
            lanes@,
            i,
        ) by {
            if known@[i] {
                tree::lemma_more_levels(nodes@, lanes@, i, found.len(), n as nat);
            } else {
                lemma_unknown(nodes@, lanes@, known@, i, n as nat);
            }
        }
    }
    known
}

/// Tells whether every partition that can be searched has a tree.
fn check_trees(
    contents: &Contents,
    mode: SearchMode,
    table: &[i32; KEY_LOOKUP_SIZE],
) -> (r: bool)
    requires
        contents.forest.nodes@.len() <= 0x7fff_ffff,
        contents.partitions@.len() <= 0x7fff_ffff,
        forall|key: int|
            0 <= key < KEY_LOOKUP_SIZE ==> #[trigger] table@[key] == partition_of(
                contents.partitions@,
                key,
            ),
    ensures
        r == trees_stand(*contents, mode),
{
    let known = find_trees(&contents.forest.nodes, &contents.forest.lanes);
    let ghost parts = contents.partitions@;
    let ghost nodes = contents.forest.nodes@;
    let ghost lanes = contents.forest.lanes@;
    let mut i: usize = 0;
    while i < contents.partitions.len()
        invariant
            i <= parts.len() <= 0x7fff_ffff,
            parts == contents.partitions@,
            nodes == contents.forest.nodes@,
            lanes == contents.forest.lanes@,
            nodes.len() <= 0x7fff_ffff,
            known@.len() == nodes.len(),
            forall|k: int|
                0 <= k < nodes.len() ==> #[trigger] known@[k] == tree::has_tree(nodes, lanes, k),
            forall|key: int|
                0 <= key < KEY_LOOKUP_SIZE ==> #[trigger] table@[key] == partition_of(parts, key),
            forall|k: int|
                k < i && #[trigger] can_be_searched(parts, mode, k) ==> tree::has_tree(
                    nodes,
                    lanes,
                    parts[k].root as int,
                ),
        decreases parts.len() - i,
    {
        let part = contents.partitions[i];
        let needed: bool = mode == SearchMode::Exact || ((part.key as usize) < KEY_LOOKUP_SIZE
            && table[part.key as usize] == i as i32);
        assert(needed == can_be_searched(parts, mode, i as int));
        if needed {
            let root: i32 = part.root;
            if root < 0 || root as usize >= known.len() || !known[root as usize] {
                assert(!tree::has_tree(nodes, lanes, parts[i as int].root as int));
                return false;
            }
        }
        i = i + 1;
    }
    true
}

impl SpecialistIndex {
    /// The index can be searched: its trees fit, and its lookup table says where each key's
    /// partition is.
    pub open spec fn wf(self) -> bool {
        let parts = self.contents.partitions@;
        &&& contents_fault(self.contents, self.settings.mode) is None
        &&& self.contents.forest.wf()
        &&& self.contents.amount_cuts@.len() <= 0x7fff
        &&& self.contents.dow_cuts@.len() <= 0x7fff
        &&& parts.len() <= 0x7fff_ffff
        &&& forall|key: int|
            0 <= key < KEY_LOOKUP_SIZE ==> #[trigger] self.key_to_partition@[key] == partition_of(
                parts,
                key,
            )
        &&& self.active_keys@.len() <= KEY_LOOKUP_SIZE
        &&& forall|k: int, l: int|
            0 <= k < l < self.active_keys@.len() ==> self.active_keys@[k] < self.active_keys@[l]
        &&& forall|key: u32| #[trigger]
            self.active_keys@.contains(key) <==> key < KEY_LOOKUP_SIZE && partition_of(
                parts,
                key as int,
            ) >= 0
    }

    /// Builds the lookup table.
    fn look_up_table(partitions: &Vec<Partition>) -> (r: [i32; KEY_LOOKUP_SIZE])
        requires
            partitions@.len() <= 0x7fff_ffff,
        ensures
            forall|key: int|
                0 <= key < KEY_LOOKUP_SIZE ==> #[trigger] r@[key] == partition_of(
                    partitions@,
                    key,
                ),
    {
        let mut table: [i32; KEY_LOOKUP_SIZE] = [-1i32; KEY_LOOKUP_SIZE];
        let mut i: usize = 0;
        assert(partitions@.take(0) =~= Seq::<Partition>::empty());
        while i < partitions.len()
            invariant
                i <= partitions@.len() <= 0x7fff_ffff,
                table@.len() == KEY_LOOKUP_SIZE,
                forall|key: int|
                    0 <= key < KEY_LOOKUP_SIZE ==> #[trigger] table@[key] == partition_of(
                        partitions@.take(i as int),
                        key,
                    ),
            decreases partitions@.len() - i,
        {
            let ghost before = table@;
            let key: u32 = partitions[i].key;
            if (key as usize) < KEY_LOOKUP_SIZE {
                table[key as usize] = i as i32;
            }
            proof {
                let longer = partitions@.take(i + 1);
                assert(longer.drop_last() =~= partitions@.take(i as int));
                assert(longer.last() == partitions@[i as int]);
                assert forall|k: int| 0 <= k < KEY_LOOKUP_SIZE implies #[trigger] table@[k]
                    == partition_of(longer, k) by {
                    assert(before[k] == partition_of(partitions@.take(i as int), k));
                }
            }
            i = i + 1;
        }
        assert(partitions@.take(i as int) =~= partitions@);
        table
    }

    /// The keys that have a partition.
    fn keys_in(table: &[i32; KEY_LOOKUP_SIZE]) -> (r: Vec<u32>)
        ensures
            r@.len() <= KEY_LOOKUP_SIZE,
            forall|k: int, l: int| 0 <= k < l < r@.len() ==> r@[k] < r@[l],
            forall|key: u32| #[trigger]
                r@.contains(key) <==> key < KEY_LOOKUP_SIZE && table@[key as int] >= 0,
    {
        let mut r: Vec<u32> = Vec::new();
        let mut key: usize = 0;
        while key < KEY_LOOKUP_SIZE
            invariant
                key <= KEY_LOOKUP_SIZE,
                r@.len() <= key,
                forall|k: int, l: int| 0 <= k < l < r@.len() ==> r@[k] < r@[l],
                forall|k: int| 0 <= k < r@.len() ==> (#[trigger] r@[k]) < key,
                forall|x: u32| #[trigger] r@.contains(x) <==> x < key && table@[x as int] >= 0,
            decreases KEY_LOOKUP_SIZE - key,
        {
            let ghost before = r@;
            if table[key] >= 0 {
                r.push(key as u32);
                proof {
                    assert forall|x: u32| #[trigger] r@.contains(x) <==> x < key + 1
                        && table@[x as int] >= 0 by {
                        if x == key {
                            assert(r@[before.len() as int] == x);
                        } else if before.contains(x) {
                            let k = choose|k: int| 0 <= k < before.len() && before[k] == x;
                            assert(r@[k] == x);
                        } else if r@.contains(x) {
                            let k = choose|k: int| 0 <= k < r@.len() && r@[k] == x;
                            assert(k < before.len());
                            assert(before[k] == x);
                        }
                    }
                }
            } else {
                proof {
                    assert forall|x: u32| #[trigger] r@.contains(x) <==> x < key + 1
                        && table@[x as int] >= 0 by {
                        assert(r@ == before);
                    }
                }
            }
            key = key + 1;
        }
        r
    }

    /// Reads an index file.
    pub fn open(bytes: &[u8], settings: SearchSettings) -> (r: Result<Self, LoadError>)
        ensures
            match r {
                Ok(index) => {
                    &&& layout::fault(bytes@) is None
                    &&& index.contents.stored_in(bytes@)
                    &&& contents_fault(index.contents, settings.mode) is None
                    &&& index.settings == settings
                    &&& index.wf()
                },
                Err(e) => layout::fault(bytes@) == Some(e) || (layout::fault(bytes@) is None
                    && exists|c: Contents|
                    #[trigger] c.stored_in(bytes@) && contents_fault(c, settings.mode) == Some(e)),
            },
    {
        let contents = match layout::load(bytes) {
            Ok(contents) => contents,
            Err(e) => {
                return Err(e);
            },
        };
        let key_to_partition = Self::look_up_table(&contents.partitions);
        if !check_trees(&contents, settings.mode, &key_to_partition) {
            assert(contents_fault(contents, settings.mode) == Some(LoadError::MalformedTrees));
            return Err(LoadError::MalformedTrees);
        }
        let active_keys = Self::keys_in(&key_to_partition);
        Ok(SpecialistIndex { contents, key_to_partition, active_keys, settings })
    }

    /// The partition key of a vector.
    pub open spec fn key_of(self, vector: Seq<i16>) -> int {
        if self.contents.scheme_id == TREE_SCHEME {
            partition_scheme::tree_key(
                vector,
                self.contents.predicates@,
                depth_of(self.contents.scheme_param),
            )
        } else {
            partition_scheme::cut_key(
                vector,
                self.contents.amount_cuts@,
                self.contents.dow_cuts@,
            ) as int
        }
    }

    /// The partition key of a vector.
    pub fn compute_partition_key(&self, vector: &QueryVector) -> (r: u32)
        requires
            self.wf(),
        ensures
            r == self.key_of(vector@),
    {
        if self.contents.scheme_id == TREE_SCHEME {
            let param: i16 = self.contents.scheme_param;
            let depth: u32 = if param <= 0 {
                0
            } else if param as u32 > MAX_TREE_DEPTH {
                MAX_TREE_DEPTH
            } else {
                param as u32
            };
            partition_scheme::compute_tree_key(
                vector,
                depth,
                self.contents.predicates.as_slice(),
            )
        } else {
            partition_scheme::compute_cut_key(
                vector,
                self.contents.amount_cuts.as_slice(),
                self.contents.dow_cuts.as_slice(),
            )
        }
    }

    /// How large the index is.
    pub fn metadata(&self) -> (r: IndexMetadata)
        ensures
            r.reference_count == layout::as_usize(self.contents.reference_count as int),
            r.partition_count == self.contents.partitions@.len(),
            r.node_count == self.contents.forest.nodes@.len(),
            r.block_count == self.contents.forest.lanes@.len() / 8,
    {
        IndexMetadata {
            reference_count: layout::usize_of(self.contents.reference_count),
            partition_count: self.contents.partitions.len(),
            node_count: self.contents.forest.nodes.len(),
            block_count: self.contents.forest.lanes.len() / 8,
        }
    }
}

} // verus!
