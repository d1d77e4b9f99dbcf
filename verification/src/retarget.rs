//! Retarget: rewrite built segments' recorded configs to new memory placements.
//!
//! A document may differ from the one that an artifact was built under in placement alone: where the
//! same bytes sit once they are loaded. Then each segment's recorded config is rewritten to what a
//! fresh build under the new document would record, and no data file is touched. Everything else
//! decides the bytes of a segment and is refused by name.
use vstd::prelude::*;
use vstd::string::*;
use crate::building::BuildFingerprint;
use crate::config::{HnswConfig, LoadedConfig, Memory};
use crate::dense_codec::VectorStorageDatatype;
use crate::json::{Json, JsonValue};
use crate::names;
use crate::names::NameMap;
use crate::text;

verus! {

/// How a retarget run is tuned, as opposed to what it operates on.
#[derive(Debug, Clone, Copy, PartialEq, Eq, Structural)]
pub struct RetargetOptions {
    /// Report what would change without writing anything.
    pub dry_run: bool,
}

/// What a retarget run did or, when it is dry, would do.
#[derive(Debug)]
pub struct RetargetReport {
    pub shards: usize,
    pub segments_examined: usize,
    pub segments_rewritten: usize,
    /// One line per changed field, prefixed with shard and segment.
    pub changes: Vec<String>,
}

/// How payloads are stored: on disk either way, read lazily or fetched on load.
#[derive(Debug, Clone, Copy, PartialEq, Eq, Structural)]
pub enum PayloadStorageType {
    Mmap,
    InRamMmap,
}

impl PayloadStorageType {
    /// The name in a message.
    pub open spec fn name(self) -> Seq<char> {
        match self {
            PayloadStorageType::Mmap => "Mmap"@,
            PayloadStorageType::InRamMmap => "InRamMmap"@,
        }
    }

    /// The name in a message.
    pub fn display_name(self) -> (name: &'static str)
        ensures
            name@ == self.name(),
    {
        match self {
            PayloadStorageType::Mmap => "Mmap",
            PayloadStorageType::InRamMmap => "InRamMmap",
        }
    }
}

/// How dense vectors are stored.
#[derive(Debug, Clone, Copy, PartialEq, Eq, Structural)]
pub enum VectorStorageType {
    /// In RAM alone; no longer written.
    Memory,
    /// One file, read lazily.
    Mmap,
    /// Chunks that take new vectors, read lazily.
    ChunkedMmap,
    /// Chunks that take new vectors, fetched on load.
    InRamChunkedMmap,
    /// One file, fetched on load.
    InRamMmap,
    /// No data at all.
    Empty,
}

impl VectorStorageType {
    /// The name in a message.
    pub open spec fn name(self) -> Seq<char> {
        match self {
            VectorStorageType::Memory => "Memory"@,
            VectorStorageType::Mmap => "Mmap"@,
            VectorStorageType::ChunkedMmap => "ChunkedMmap"@,
            VectorStorageType::InRamChunkedMmap => "InRamChunkedMmap"@,
            VectorStorageType::InRamMmap => "InRamMmap"@,
            VectorStorageType::Empty => "Empty"@,
        }
    }

    /// The name in a message.
    pub fn display_name(self) -> (name: &'static str)
        ensures
            name@ == self.name(),
    {
        match self {
            VectorStorageType::Memory => "Memory",
            VectorStorageType::Mmap => "Mmap",
            VectorStorageType::ChunkedMmap => "ChunkedMmap",
            VectorStorageType::InRamChunkedMmap => "InRamChunkedMmap",
            VectorStorageType::InRamMmap => "InRamMmap",
            VectorStorageType::Empty => "Empty",
        }
    }
}

/// How dense vectors are compared.
#[derive(Debug, Clone, Copy, PartialEq, Eq, Structural)]
pub enum Distance {
    Cosine,
    Euclid,
    Dot,
    Manhattan,
}

impl Distance {
    /// The name in a message.
    pub open spec fn name(self) -> Seq<char> {
        match self {
            Distance::Cosine => "Cosine"@,
            Distance::Euclid => "Euclid"@,
            Distance::Dot => "Dot"@,
            Distance::Manhattan => "Manhattan"@,
        }
    }

    /// The name in a message.
    pub fn display_name(self) -> (name: &'static str)
        ensures
            name@ == self.name(),
    {
        match self {
            Distance::Cosine => "Cosine",
            Distance::Euclid => "Euclid",
            Distance::Dot => "Dot",
            Distance::Manhattan => "Manhattan",
        }
    }
}

/// The structure of a sparse index.
#[derive(Debug, Clone, Copy, PartialEq, Eq, Structural)]
pub enum SparseIndexType {
    MutableRam,
    ImmutableRam,
    Mmap,
}

impl SparseIndexType {
    /// The name in a message.
    pub open spec fn name(self) -> Seq<char> {
        match self {
            SparseIndexType::MutableRam => "MutableRam"@,
            SparseIndexType::ImmutableRam => "ImmutableRam"@,
            SparseIndexType::Mmap => "Mmap"@,
        }
    }

    /// The name in a message.
    pub fn display_name(self) -> (name: &'static str)
        ensures
            name@ == self.name(),
    {
        match self {
            SparseIndexType::MutableRam => "MutableRam",
            SparseIndexType::ImmutableRam => "ImmutableRam",
            SparseIndexType::Mmap => "Mmap",
        }
    }
}

/// How sparse vectors are stored.
#[derive(Debug, Clone, Copy, PartialEq, Eq, Structural)]
pub enum SparseVectorStorageType {
    OnDisk,
    Mmap,
}

impl SparseVectorStorageType {
    /// The name in a message.
    pub open spec fn name(self) -> Seq<char> {
        match self {
            SparseVectorStorageType::OnDisk => "OnDisk"@,
            SparseVectorStorageType::Mmap => "Mmap"@,
        }
    }

    /// The name in a message.
    pub fn display_name(self) -> (name: &'static str)
        ensures
            name@ == self.name(),
    {
        match self {
            SparseVectorStorageType::OnDisk => "OnDisk",
            SparseVectorStorageType::Mmap => "Mmap",
        }
    }
}

/// How the weights of a sparse vector are modified at search time.
#[derive(Debug, Clone, Copy, PartialEq, Eq, Structural)]
pub enum Modifier {
    /// As they are stored.
    Identity,
    Idf,
}

/// The index of a dense vector.
#[derive(Debug, Clone, Copy, PartialEq, Eq, Structural)]
pub enum Indexes {
    Plain,
    Hnsw(HnswConfig),
}

/// What a segment records of a dense vector.
#[derive(Debug)]
pub struct VectorDataConfig {
    pub size: u64,
    pub distance: Distance,
    pub storage_type: VectorStorageType,
    pub index: Indexes,
    pub quantization: Option<Json>,
    pub multivector: Option<Json>,
    pub datatype: Option<VectorStorageDatatype>,
}

/// What is recorded of a dense vector, by its values.
pub struct DenseView {
    pub size: u64,
    pub distance: Distance,
    pub storage_type: VectorStorageType,
    pub index: Indexes,
    pub quantization: Option<JsonValue>,
    pub multivector: Option<JsonValue>,
    pub datatype: Option<VectorStorageDatatype>,
}

/// What an optional JSON value holds.
pub open spec fn json_view(value: Option<Json>) -> Option<JsonValue> {
    match value {
        Some(value) => Some(value@),
        None => None,
    }
}

impl VectorDataConfig {
    pub open spec fn view(self) -> DenseView {
        DenseView {
            size: self.size,
            distance: self.distance,
            storage_type: self.storage_type,
            index: self.index,
            quantization: json_view(self.quantization),
            multivector: json_view(self.multivector),
            datatype: self.datatype,
        }
    }
}

/// What a segment records of the index of a sparse vector.
#[derive(Debug, Clone, Copy, PartialEq, Eq, Structural)]
pub struct SparseIndexConfig {
    pub full_scan_threshold: Option<u64>,
    pub index_type: SparseIndexType,
    pub datatype: Option<VectorStorageDatatype>,
    /// The placement as stated.
    pub memory: Option<Memory>,
    pub wand_pruning: Option<bool>,
}

/// What a segment records of a sparse vector.
#[derive(Debug, Clone, Copy, PartialEq, Eq, Structural)]
pub struct SparseVectorDataConfig {
    pub index: SparseIndexConfig,
    pub storage_type: SparseVectorStorageType,
    pub modifier: Option<Modifier>,
}

/// The recorded config of one segment.
pub struct SegmentConfig {
    pub vector_data: NameMap<VectorDataConfig>,
    pub sparse_vector_data: NameMap<SparseVectorDataConfig>,
    pub payload_storage_type: PayloadStorageType,
}

/// What the optimizer config says of one dense vector.
#[derive(Debug)]
pub struct DenseOptimizerConfig {
    /// The resolved storage placement; none where the document asks for none.
    pub memory_placement: Option<Memory>,
    pub hnsw_config: HnswConfig,
    pub quantization_config: Option<Json>,
    /// As much of the quantization as a segment that takes new points can have.
    pub appendable_quantization: Option<Json>,
}

/// What the optimizer config says of one sparse vector.
#[derive(Debug, Clone, Copy, PartialEq, Eq, Structural)]
pub struct SparseOptimizerConfig {
    /// The placement as stated.
    pub memory: Option<Memory>,
    /// The placement as resolved.
    pub memory_placement: Option<Memory>,
}

/// The config under which the serving cluster's optimizers would work on a document's collection.
pub struct SegmentOptimizerConfig {
    pub payload_storage_type: PayloadStorageType,
    pub plain_dense_vector_config: NameMap<VectorDataConfig>,
    pub dense_vector: NameMap<DenseOptimizerConfig>,
    pub plain_sparse_vector_config: NameMap<SparseVectorDataConfig>,
    pub sparse_vector: NameMap<SparseOptimizerConfig>,
    /// Whether vectors fetched on load can stay in one file.
    pub single_file_mmap_vector_storage: bool,
}

/// What a document wants of one dense vector.
#[derive(Debug)]
pub struct DenseTarget {
    /// The structural reference: size, distance, datatype and multivector.
    pub plain: VectorDataConfig,
    /// The storage placement. `None` leaves the recorded storage alone.
    pub placement: Option<Memory>,
    /// The graph parameters that a fresh build would record, placement included.
    pub hnsw: HnswConfig,
    pub quantization: Option<Json>,
    pub appendable_quantization: Option<Json>,
}

/// What a document wants of one sparse vector.
#[derive(Debug, Clone, Copy, PartialEq, Eq, Structural)]
pub struct SparseTarget {
    /// The structural reference: storage, modifier, datatype, threshold and pruning.
    pub plain: SparseVectorDataConfig,
    /// The placement as stated, which is what a fresh build records.
    pub raw_memory: Option<Memory>,
    /// The placement as resolved, which decides the structure of the index.
    pub placement: Option<Memory>,
}

/// A document's placement decisions.
pub struct PlacementTargets {
    pub payload_storage: PayloadStorageType,
    pub dense: NameMap<DenseTarget>,
    pub sparse: NameMap<SparseTarget>,
    pub single_file_mmap_vector_storage: bool,
}

impl PlacementTargets {
    /// Join what the optimizer config says of each vector before and behind optimization. It has an
    /// entry behind optimization for every vector that it lists before.
    pub fn resolve(optimizer: SegmentOptimizerConfig) -> (targets: Self)
        requires
            covers(optimizer.plain_dense_vector_config@, optimizer.dense_vector@),
            covers(optimizer.plain_sparse_vector_config@, optimizer.sparse_vector@),
        ensures
            targets.payload_storage == optimizer.payload_storage_type,
            targets.single_file_mmap_vector_storage == optimizer.single_file_mmap_vector_storage,
            targets.dense@ == Seq::new(
                optimizer.plain_dense_vector_config@.len(),
                |i: int|
                    (
                        optimizer.plain_dense_vector_config@[i].0,
                        dense_target(
                            optimizer.plain_dense_vector_config@[i].1,
                            names::value_of(
                                optimizer.dense_vector@,
                                optimizer.plain_dense_vector_config@[i].0,
                            )->0,
                        ),
                    ),
            ),
            targets.sparse@ == Seq::new(
                optimizer.plain_sparse_vector_config@.len(),
                |i: int|
                    (
                        optimizer.plain_sparse_vector_config@[i].0,
                        sparse_target(
                            optimizer.plain_sparse_vector_config@[i].1,
                            names::value_of(
                                optimizer.sparse_vector@,
                                optimizer.plain_sparse_vector_config@[i].0,
                            )->0,
                        ),
                    ),
            ),
    {
        let dense = join_dense(optimizer.plain_dense_vector_config, optimizer.dense_vector);
        let ghost plain = optimizer.plain_sparse_vector_config@;
        let ghost full = optimizer.sparse_vector@;
        let count: usize = optimizer.plain_sparse_vector_config.len();
        let mut sparse: Vec<(String, SparseTarget)> = Vec::new();
        let mut i: usize = 0;
        while i < count
            invariant
                i <= count,
                count == plain.len(),
                plain == optimizer.plain_sparse_vector_config@,
                full == optimizer.sparse_vector@,
                names::sorted_keys(plain),
                covers(plain, full),
                sparse@.len() == i,
                forall|k: int|
                    0 <= k < i ==> (#[trigger] sparse@[k]).0@ == plain[k].0 && sparse@[k].1
                        == sparse_target(plain[k].1, names::value_of(full, plain[k].0)->0),
            decreases count - i,
        {
            let name = optimizer.plain_sparse_vector_config.name_at(i);
            assert(names::has_key(full, plain[i as int].0));
            let config = optimizer.sparse_vector.get(name.as_str()).unwrap();
            sparse.push(
                (
                    name.clone(),
                    SparseTarget {
                        plain: *optimizer.plain_sparse_vector_config.value_at(i),
                        raw_memory: config.memory,
                        placement: config.memory_placement,
                    },
                ),
            );
            i = i + 1;
        }
        proof {
            let s = Seq::new(sparse@.len(), |k: int| (sparse@[k].0@, sparse@[k].1));
            lemma_same_names(plain, s);
        }
        PlacementTargets {
            payload_storage: optimizer.payload_storage_type,
            dense,
            sparse: NameMap::from_entries(sparse),
            single_file_mmap_vector_storage: optimizer.single_file_mmap_vector_storage,
        }
    }
}

/// Whether every name of one table is in the other.
pub open spec fn covers<S, T>(plain: Seq<(Seq<char>, S)>, full: Seq<(Seq<char>, T)>) -> bool {
    forall|i: int| 0 <= i < plain.len() ==> names::has_key(full, (#[trigger] plain[i]).0)
}

/// Whether some entry has that name.
spec fn has_entry<T>(entries: Seq<(String, T)>, name: Seq<char>) -> bool {
    exists|k: int| 0 <= k < entries.len() && (#[trigger] entries[k]).0@ == name
}

/// Takes an entry of that name out.
fn take_entry<T>(entries: &mut Vec<(String, T)>, name: &str) -> (value: T)
    requires
        has_entry(old(entries)@, name@),
    ensures
        exists|k: int|
            0 <= k < old(entries)@.len() && (#[trigger] old(entries)@[k]).0@ == name@ && value
                == old(entries)@[k].1 && final(entries)@ == old(entries)@.remove(k),
{
    let mut i: usize = 0;
    while i < entries.len() && !text::same(entries[i].0.as_str(), name)
        invariant
            i <= entries.len(),
            entries@ == old(entries)@,
            forall|k: int| 0 <= k < i ==> (#[trigger] entries@[k]).0@ != name@,
        decreases entries.len() - i,
    {
        i = i + 1;
    }
    assert(i < entries.len());
    assert(old(entries)@[i as int].0@ == name@);
    let (_, value) = entries.remove(i);
    value
}

/// Join what is said of each dense vector before and behind optimization.
fn join_dense(plain: NameMap<VectorDataConfig>, full: NameMap<DenseOptimizerConfig>) -> (dense:
    NameMap<DenseTarget>)
    requires
        covers(plain@, full@),
    ensures
        dense@ == Seq::new(
            plain@.len(),
            |i: int|
                (
                    plain@[i].0,
                    dense_target(plain@[i].1, names::value_of(full@, plain@[i].0)->0),
                ),
        ),
{
    let ghost before = plain@;
    let ghost behind = full@;
    let count: usize = plain.len();
    let mut plain = plain.into_entries();
    let mut full = full.into_entries();
    let mut dense: Vec<(String, DenseTarget)> = Vec::new();
    proof {
        assert forall|k: int| 0 <= k < count implies (#[trigger] plain@[k]).0@ == before[0 + k].0
            && plain@[k].1 == before[0 + k].1 by {
            assert(plain@[k].0@ == before[k].0);
        }
        assert forall|k: int| 0 <= k < full@.len() implies names::value_of(
            behind,
            (#[trigger] full@[k]).0@,
        ) == Some(full@[k].1) by {
            assert(full@[k].0@ == behind[k].0);
            names::lemma_value_at(behind, k);
        }
        assert forall|j: int| 0 <= j < count implies has_entry(
            full@,
            (#[trigger] before[j]).0,
        ) by {
            let k = choose|k: int| 0 <= k < behind.len() && #[trigger] behind[k].0 == before[j].0;
            assert(full@[k].0@ == behind[k].0);
        }
    }
    let mut i: usize = 0;
    while i < count
        invariant
            i <= count,
            count == before.len(),
            names::sorted_keys(before),
            plain@.len() == count - i,
            forall|k: int|
                0 <= k < count - i ==> (#[trigger] plain@[k]).0@ == before[i + k].0 && plain@[k].1
                    == before[i + k].1,
            forall|k: int|
                0 <= k < full@.len() ==> names::value_of(behind, (#[trigger] full@[k]).0@) == Some(
                    full@[k].1,
                ),
            forall|j: int| i <= j < count ==> has_entry(full@, (#[trigger] before[j]).0),
            dense@.len() == i,
            forall|k: int|
                0 <= k < i ==> (#[trigger] dense@[k]).0@ == before[k].0 && dense@[k].1
                    == dense_target(before[k].1, names::value_of(behind, before[k].0)->0),
        decreases count - i,
    {
        let ghost was_plain = plain@;
        let ghost was_full = full@;
        assert(was_plain[0].0@ == before[i + 0].0);
        let (name, plain_config) = plain.remove(0);
        assert(has_entry(full@, before[i as int].0));
        let config = take_entry(&mut full, name.as_str());
        proof {
            let gone = choose|k: int|
                0 <= k < was_full.len() && (#[trigger] was_full[k]).0@ == name@ && config
                    == was_full[k].1 && full@ == was_full.remove(k);
            assert forall|k: int| 0 <= k < count - i - 1 implies (#[trigger] plain@[k]).0@
                == before[i + 1 + k].0 && plain@[k].1 == before[i + 1 + k].1 by {
                assert(plain@[k] == was_plain[k + 1]);
                assert(was_plain[k + 1].0@ == before[i + (k + 1)].0);
            }
            assert forall|k: int| 0 <= k < full@.len() implies names::value_of(
                behind,
                (#[trigger] full@[k]).0@,
            ) == Some(full@[k].1) by {
                let was = if k < gone {
                    k
                } else {
                    k + 1
                };
                assert(full@[k] == was_full[was]);
            }
            assert forall|j: int| i < j < count implies has_entry(
                full@,
                (#[trigger] before[j]).0,
            ) by {
                let k = choose|k: int|
                    0 <= k < was_full.len() && (#[trigger] was_full[k]).0@ == before[j].0;
                assert(text::text_lt(before[i as int].0, before[j].0));
                text::text_lt_trichotomy(before[i as int].0, before[j].0);
                assert(k != gone);
                if k < gone {
                    assert(full@[k] == was_full[k]);
                } else {
                    assert(full@[k - 1] == was_full[k]);
                }
            }
        }
        dense.push(
            (
                name,
                DenseTarget {
                    plain: plain_config,
                    placement: config.memory_placement,
                    hnsw: config.hnsw_config,
                    quantization: config.quantization_config,
                    appendable_quantization: config.appendable_quantization,
                },
            ),
        );
        i = i + 1;
    }
    proof {
        let d = Seq::new(dense@.len(), |k: int| (dense@[k].0@, dense@[k].1));
        lemma_same_names(before, d);
    }
    NameMap::from_entries(dense)
}

/// Two tables with the same names are in order alike.
proof fn lemma_same_names<S, T>(a: Seq<(Seq<char>, S)>, b: Seq<(Seq<char>, T)>)
    requires
        names::sorted_keys(a),
        a.len() == b.len(),
        forall|i: int| 0 <= i < a.len() ==> (#[trigger] a[i]).0 == b[i].0,
    ensures
        names::sorted_keys(b),
{
    assert forall|i: int, j: int| 0 <= i < j < b.len() implies text::text_lt(
        #[trigger] b[i].0,
        #[trigger] b[j].0,
    ) by {
        assert(text::text_lt(a[i].0, a[j].0));
    }
}

/// What a document wants of a dense vector, from its two configs.
pub open spec fn dense_target(plain: VectorDataConfig, config: DenseOptimizerConfig) -> DenseTarget {
    DenseTarget {
        plain,
        placement: config.memory_placement,
        hnsw: config.hnsw_config,
        quantization: config.quantization_config,
        appendable_quantization: config.appendable_quantization,
    }
}

/// What a document wants of a sparse vector, from its two configs.
pub open spec fn sparse_target(
    plain: SparseVectorDataConfig,
    config: SparseOptimizerConfig,
) -> SparseTarget {
    SparseTarget { plain, raw_memory: config.memory, placement: config.memory_placement }
}

/// A placement in a message.
pub open spec fn placement_name(placement: Memory) -> Seq<char> {
    match placement {
        Memory::Cold => "Cold"@,
        Memory::Cached => "Cached"@,
        Memory::Pinned => "Pinned"@,
    }
}

fn placement_str(placement: Memory) -> (name: &'static str)
    ensures
        name@ == placement_name(placement),
{
    match placement {
        Memory::Cold => "Cold",
        Memory::Cached => "Cached",
        Memory::Pinned => "Pinned",
    }
}

/// An optional placement in a message.
pub open spec fn placement_text(placement: Option<Memory>) -> Seq<char> {
    match placement {
        Some(placement) => "Some("@ + placement_name(placement) + ")"@,
        None => "None"@,
    }
}

fn placement_string(placement: Option<Memory>) -> (text: String)
    ensures
        text@ == placement_text(placement),
{
    match placement {
        Some(placement) => text::cat3("Some(", placement_str(placement), ")"),
        None => "None".to_owned(),
    }
}

/// An optional element type in a message.
pub open spec fn datatype_text(datatype: Option<VectorStorageDatatype>) -> Seq<char> {
    match datatype {
        Some(VectorStorageDatatype::Float32) => "Some(Float32)"@,
        Some(VectorStorageDatatype::Uint8) => "Some(Uint8)"@,
        Some(VectorStorageDatatype::Float16) => "Some(Float16)"@,
        Some(VectorStorageDatatype::Turbo4) => "Some(Turbo4)"@,
        None => "None"@,
    }
}

fn datatype_str(datatype: Option<VectorStorageDatatype>) -> (text: &'static str)
    ensures
        text@ == datatype_text(datatype),
{
    match datatype {
        Some(VectorStorageDatatype::Float32) => "Some(Float32)",
        Some(VectorStorageDatatype::Uint8) => "Some(Uint8)",
        Some(VectorStorageDatatype::Float16) => "Some(Float16)",
        Some(VectorStorageDatatype::Turbo4) => "Some(Turbo4)",
        None => "None",
    }
}

/// What is said of a dense vector.
pub open spec fn of_dense(name: Seq<char>, why: Seq<char>) -> Seq<char> {
    "dense vector `"@ + name + "`: "@ + why
}

/// What is said of a sparse vector.
pub open spec fn of_sparse(name: Seq<char>, why: Seq<char>) -> Seq<char> {
    "sparse vector `"@ + name + "`: "@ + why
}

fn dense_message(name: &str, why: &str) -> (message: String)
    ensures
        message@ == of_dense(name@, why@),
{
    text::cat4("dense vector `", name, "`: ", why)
}

fn sparse_message(name: &str, why: &str) -> (message: String)
    ensures
        message@ == of_sparse(name@, why@),
{
    text::cat4("sparse vector `", name, "`: ", why)
}

/// The graph parameter whose change means different graph bytes: the first that differs.
pub open spec fn hnsw_difference(recorded: HnswConfig, target: HnswConfig) -> Option<Seq<char>> {
    if recorded.m != target.m {
        Some("m"@)
    } else if recorded.ef_construct != target.ef_construct {
        Some("ef_construct"@)
    } else if recorded.full_scan_threshold != target.full_scan_threshold {
        Some("full_scan_threshold"@)
    } else if recorded.payload_m != target.payload_m {
        Some("payload_m"@)
    } else if recorded.inline_storage != target.inline_storage {
        Some("inline_storage"@)
    } else {
        None
    }
}

/// What is said of a graph that would have to be rebuilt.
pub open spec fn hnsw_text(name: Seq<char>, field: Seq<char>) -> Seq<char> {
    of_dense(
        name,
        "hnsw_config."@ + field
            + " differs from the document; the graph would have to be rebuilt, which retarget never does \u{2014} change it with a re-plan and re-build instead"@,
    )
}

/// The graph parameters whose change means different graph bytes, which is everything but the
/// placement and the number of threads.
pub fn require_hnsw_structurally_equal(
    name: &str,
    recorded: &HnswConfig,
    target: &HnswConfig,
) -> (outcome: Result<(), String>)
    ensures
        match (outcome, hnsw_difference(*recorded, *target)) {
            (Ok(()), None) => true,
            (Err(message), Some(field)) => message@ == hnsw_text(name@, field),
            _ => false,
        },
{
    let field: &'static str = if recorded.m != target.m {
        "m"
    } else if recorded.ef_construct != target.ef_construct {
        "ef_construct"
    } else if recorded.full_scan_threshold != target.full_scan_threshold {
        "full_scan_threshold"
    } else if recorded.payload_m != target.payload_m {
        "payload_m"
    } else if recorded.inline_storage != target.inline_storage {
        "inline_storage"
    } else {
        return Ok(());
    };
    let why = text::cat3(
        "hnsw_config.",
        field,
        " differs from the document; the graph would have to be rebuilt, which retarget never does \u{2014} change it with a re-plan and re-build instead",
    );
    Err(dense_message(name, why.as_str()))
}

/// The storage of a segment that takes new vectors, under a placement.
pub open spec fn appendable_storage(placement: Memory) -> VectorStorageType {
    match placement {
        Memory::Cold => VectorStorageType::ChunkedMmap,
        Memory::Cached | Memory::Pinned => VectorStorageType::InRamChunkedMmap,
    }
}

/// The storage that a fresh build would record, given what is on disk now. The recorded storage
/// names the file format, and a change stays within one format.
pub open spec fn storage_after(
    recorded: VectorStorageType,
    placement: Option<Memory>,
) -> VectorStorageType {
    match recorded {
        VectorStorageType::Mmap | VectorStorageType::InRamMmap => match placement {
            Some(Memory::Cold) => VectorStorageType::Mmap,
            Some(Memory::Cached) | Some(Memory::Pinned) => VectorStorageType::InRamMmap,
            None => recorded,
        },
        VectorStorageType::ChunkedMmap | VectorStorageType::InRamChunkedMmap => match placement {
            Some(placement) => appendable_storage(placement),
            None => appendable_storage(Memory::Cached),
        },
        VectorStorageType::Memory | VectorStorageType::Empty => recorded,
    }
}

/// Whether the placement can only be had in another file format.
pub open spec fn storage_refused(
    recorded: VectorStorageType,
    placement: Option<Memory>,
    single_file: bool,
) -> bool {
    &&& recorded is Mmap || recorded is InRamMmap
    &&& placement == Some(Memory::Cached) || placement == Some(Memory::Pinned)
    &&& !single_file
}

/// What is said of a placement that needs another file format.
pub open spec fn storage_text(name: Seq<char>) -> Seq<char> {
    of_dense(
        name,
        "an in-RAM placement needs the `single_file_mmap_vector_storage` feature flag to stay in the single-file format this segment was built with"@,
    )
}

/// The storage type that a fresh build under the document would record. `None` means leave it.
pub fn dense_storage_target(
    name: &str,
    recorded: VectorStorageType,
    target: &DenseTarget,
    single_file: bool,
) -> (storage: Result<Option<VectorStorageType>, String>)
    ensures
        match storage {
            Ok(storage) => {
                &&& !storage_refused(recorded, target.placement, single_file)
                &&& storage_after(recorded, target.placement) == (match storage {
                    Some(storage) => storage,
                    None => recorded,
                })
                &&& storage is None <==> recorded is Memory || recorded is Empty || (
                target.placement is None && (recorded is Mmap || recorded is InRamMmap))
            },
            Err(message) => storage_refused(recorded, target.placement, single_file) && message@
                == storage_text(name@),
        },
{
    match recorded {
        VectorStorageType::Mmap | VectorStorageType::InRamMmap => match target.placement {
            Some(Memory::Cold) => Ok(Some(VectorStorageType::Mmap)),
            Some(Memory::Cached) | Some(Memory::Pinned) => if single_file {
                Ok(Some(VectorStorageType::InRamMmap))
            } else {
                Err(
                    dense_message(
                        name,
                        "an in-RAM placement needs the `single_file_mmap_vector_storage` feature flag to stay in the single-file format this segment was built with",
                    ),
                )
            },
            None => Ok(None),
        },
        VectorStorageType::ChunkedMmap | VectorStorageType::InRamChunkedMmap => match target.placement {
            Some(Memory::Cold) => Ok(Some(VectorStorageType::ChunkedMmap)),
            _ => Ok(Some(VectorStorageType::InRamChunkedMmap)),
        },
        VectorStorageType::Memory | VectorStorageType::Empty => Ok(None),
    }
}

/// What is said of a quantization that differs.
pub open spec fn quantization_text(name: Seq<char>) -> Seq<char> {
    of_dense(
        name,
        "quantization differs from the document's; `QuantizationConfig::mismatch_requires_rebuild` is plain equality, so even a quantization placement flip means a rebuild, not a retarget"@,
    )
}

/// Why a dense vector cannot be retargeted: the first structural difference.
pub open spec fn dense_refusal(
    name: Seq<char>,
    recorded: DenseView,
    target: DenseTarget,
    single_file: bool,
) -> Option<Seq<char>> {
    if recorded.size != target.plain.size {
        Some(
            of_dense(
                name,
                "size "@ + text::decimal_text(recorded.size as nat) + " in the segment vs "@
                    + text::decimal_text(target.plain.size as nat)
                    + " in the document; dimensionality is not retargetable"@,
            ),
        )
    } else if recorded.distance != target.plain.distance {
        Some(
            of_dense(
                name,
                "distance "@ + recorded.distance.name() + " in the segment vs "@
                    + target.plain.distance.name()
                    + " in the document; preprocessing differs, so the stored vectors would be wrong"@,
            ),
        )
    } else if recorded.datatype != target.plain.datatype {
        Some(
            of_dense(
                name,
                "datatype "@ + datatype_text(recorded.datatype) + " in the segment vs "@
                    + datatype_text(target.plain.datatype)
                    + " in the document; element width is not retargetable"@,
            ),
        )
    } else if recorded.multivector != json_view(target.plain.multivector) {
        Some(of_dense(name, "multivector config differs; not retargetable"@))
    } else {
        match recorded.index {
            Indexes::Plain => if recorded.quantization != json_view(
                target.appendable_quantization,
            ) {
                Some(quantization_text(name))
            } else if storage_refused(recorded.storage_type, target.placement, single_file) {
                Some(storage_text(name))
            } else {
                None
            },
            Indexes::Hnsw(hnsw) => match hnsw_difference(hnsw, target.hnsw) {
                Some(field) => Some(hnsw_text(name, field)),
                None => if recorded.quantization != json_view(target.quantization) {
                    Some(quantization_text(name))
                } else if storage_refused(recorded.storage_type, target.placement, single_file) {
                    Some(storage_text(name))
                } else {
                    None
                },
            },
        }
    }
}

/// The index under a document's graph parameters.
pub open spec fn index_after(recorded: Indexes, target: HnswConfig) -> Indexes {
    match recorded {
        Indexes::Plain => Indexes::Plain,
        Indexes::Hnsw(_) => Indexes::Hnsw(target),
    }
}

/// What is recorded of a dense vector behind a retarget: graph placement and storage follow the
/// document, and nothing else moves.
pub open spec fn dense_retargeted(recorded: DenseView, target: DenseTarget) -> DenseView {
    DenseView {
        index: index_after(recorded.index, target.hnsw),
        storage_type: storage_after(recorded.storage_type, target.placement),
        ..recorded
    }
}

/// The lines on what a retarget changes of a dense vector.
pub open spec fn dense_changes(name: Seq<char>, recorded: DenseView, target: DenseTarget) -> Seq<
    Seq<char>,
> {
    let graph = match recorded.index {
        Indexes::Hnsw(hnsw) => if hnsw != target.hnsw {
            seq![
                "dense `"@ + name + "` hnsw placement "@ + placement_name(hnsw.placement) + " -> "@
                    + placement_name(target.hnsw.placement),
            ]
        } else {
            Seq::empty()
        },
        Indexes::Plain => Seq::empty(),
    };
    let storage = storage_after(recorded.storage_type, target.placement);
    if storage != recorded.storage_type {
        graph.push(
            "dense `"@ + name + "` storage "@ + recorded.storage_type.name() + " -> "@
                + storage.name(),
        )
    } else {
        graph
    }
}

fn same_json(a: &Option<Json>, b: &Option<Json>) -> (same: bool)
    ensures
        same == (json_view(*a) == json_view(*b)),
{
    match (a, b) {
        (Some(a), Some(b)) => a.same(b),
        (None, None) => true,
        _ => false,
    }
}

fn check_dense(name: &str, recorded: &VectorDataConfig, target: &DenseTarget, single_file: bool) -> (
outcome: Result<(), String>)
    ensures
        match outcome {
            Ok(()) => dense_refusal(name@, recorded@, *target, single_file) is None,
            Err(message) => dense_refusal(name@, recorded@, *target, single_file) == Some(message@),
        },
{
    if recorded.size != target.plain.size {
        let why = text::cat5(
            "size ",
            text::decimal(recorded.size as u128).as_str(),
            " in the segment vs ",
            text::decimal(target.plain.size as u128).as_str(),
            " in the document; dimensionality is not retargetable",
        );
        return Err(dense_message(name, why.as_str()));
    }
    if recorded.distance != target.plain.distance {
        let why = text::cat5(
            "distance ",
            recorded.distance.display_name(),
            " in the segment vs ",
            target.plain.distance.display_name(),
            " in the document; preprocessing differs, so the stored vectors would be wrong",
        );
        return Err(dense_message(name, why.as_str()));
    }
    if recorded.datatype != target.plain.datatype {
        let why = text::cat5(
            "datatype ",
            datatype_str(recorded.datatype),
            " in the segment vs ",
            datatype_str(target.plain.datatype),
            " in the document; element width is not retargetable",
        );
        return Err(dense_message(name, why.as_str()));
    }
    if !same_json(&recorded.multivector, &target.plain.multivector) {
        return Err(dense_message(name, "multivector config differs; not retargetable"));
    }
    let expected = match &recorded.index {
        Indexes::Plain => &target.appendable_quantization,
        Indexes::Hnsw(hnsw) => match require_hnsw_structurally_equal(name, hnsw, &target.hnsw) {
            Ok(()) => &target.quantization,
            Err(message) => {
                return Err(message);
            },
        },
    };
    if !same_json(&recorded.quantization, expected) {
        return Err(
            dense_message(
                name,
                "quantization differs from the document's; `QuantizationConfig::mismatch_requires_rebuild` is plain equality, so even a quantization placement flip means a rebuild, not a retarget",
            ),
        );
    }
    match dense_storage_target(name, recorded.storage_type, target, single_file) {
        Ok(_) => Ok(()),
        Err(message) => Err(message),
    }
}

/// Rewrite what is recorded of a dense vector, and add one line per changed field. A vector that is
/// refused stays as it is.
pub fn retarget_dense(
    name: &str,
    recorded: &mut VectorDataConfig,
    target: &DenseTarget,
    single_file: bool,
    changes: &mut Vec<String>,
) -> (outcome: Result<(), String>)
    ensures
        match outcome {
            Ok(()) => {
                &&& dense_refusal(name@, old(recorded)@, *target, single_file) is None
                &&& final(recorded)@ == dense_retargeted(old(recorded)@, *target)
                &&& text::texts(final(changes)@) == text::texts(old(changes)@) + dense_changes(
                    name@,
                    old(recorded)@,
                    *target,
                )
            },
            Err(message) => {
                &&& dense_refusal(name@, old(recorded)@, *target, single_file) == Some(message@)
                &&& *final(recorded) == *old(recorded)
                &&& final(changes)@ == old(changes)@
            },
        },
{
    match check_dense(name, recorded, target, single_file) {
        Ok(()) => {},
        Err(message) => {
            return Err(message);
        },
    }
    let ghost was = text::texts(changes@);
    let ghost before = recorded@;
    let index: Indexes = recorded.index;
    match index {
        Indexes::Plain => {},
        Indexes::Hnsw(hnsw) => if hnsw != target.hnsw {
            let line = text::cat6(
                "dense `",
                name,
                "` hnsw placement ",
                placement_str(hnsw.placement),
                " -> ",
                placement_str(target.hnsw.placement),
            );
            let ghost lines = changes@;
            let ghost said = line@;
            changes.push(line);
            assert(text::texts(changes@) =~= text::texts(lines).push(said));
            recorded.index = Indexes::Hnsw(target.hnsw);
        },
    }
    let ghost graph = text::texts(changes@);
    let storage: VectorStorageType = match dense_storage_target(
        name,
        recorded.storage_type,
        target,
        single_file,
    ) {
        Ok(Some(storage)) => storage,
        _ => recorded.storage_type,
    };
    if storage != recorded.storage_type {
        let line = text::cat6(
            "dense `",
            name,
            "` storage ",
            recorded.storage_type.display_name(),
            " -> ",
            storage.display_name(),
        );
        let ghost lines = changes@;
        let ghost said = line@;
        changes.push(line);
        assert(text::texts(changes@) =~= text::texts(lines).push(said));
        recorded.storage_type = storage;
    }
    assert(text::texts(changes@) =~= was + dense_changes(name@, before, *target));
    assert(recorded@ == dense_retargeted(before, *target));
    Ok(())
}

/// The structure of a built sparse index under a placement.
pub open spec fn sparse_class(placement: Option<Memory>) -> SparseIndexType {
    if placement == Some(Memory::Pinned) {
        SparseIndexType::ImmutableRam
    } else {
        SparseIndexType::Mmap
    }
}

/// Whether the recorded pruning is what the document would record. Only an index that takes new
/// vectors reads it, and there it may also be unstated.
pub open spec fn pruning_agrees(
    recorded: SparseVectorDataConfig,
    target: SparseTarget,
) -> bool {
    recorded.index.wand_pruning is None || (recorded.index.index_type
        == SparseIndexType::MutableRam && recorded.index.wand_pruning
        == target.plain.index.wand_pruning)
}

/// Why a sparse vector cannot be retargeted: the first structural difference.
pub open spec fn sparse_refusal(
    name: Seq<char>,
    recorded: SparseVectorDataConfig,
    target: SparseTarget,
) -> Option<Seq<char>> {
    if recorded.storage_type != target.plain.storage_type {
        Some(
            of_sparse(
                name,
                "storage type "@ + recorded.storage_type.name() + " vs "@
                    + target.plain.storage_type.name() + "; not retargetable"@,
            ),
        )
    } else if recorded.modifier != target.plain.modifier {
        Some(
            of_sparse(
                name,
                "modifier differs from the document; the stored weights would be wrong, so this is not retargetable"@,
            ),
        )
    } else if recorded.index.datatype != target.plain.index.datatype {
        Some(of_sparse(name, "index datatype differs; not retargetable"@))
    } else if recorded.index.full_scan_threshold != target.plain.index.full_scan_threshold {
        Some(
            of_sparse(
                name,
                "full_scan_threshold differs from the document; a fresh build would record the new value, so re-plan and re-build instead"@,
            ),
        )
    } else if !pruning_agrees(recorded, target) {
        Some(
            of_sparse(
                name,
                "wand_pruning differs from the document; it shapes the mutable index's search behaviour and is frozen at plan \u{2014} re-plan instead"@,
            ),
        )
    } else if recorded.index.index_type != SparseIndexType::MutableRam && recorded.index.index_type
        != sparse_class(target.placement) {
        Some(
            of_sparse(
                name,
                "the requested placement needs index type "@ + sparse_class(
                    target.placement,
                ).name() + " but the segment was built as "@ + recorded.index.index_type.name()
                    + "; pinned flips change the index structure, so this needs a re-plan and re-build"@,
            ),
        )
    } else {
        None
    }
}

/// What is recorded of a sparse vector behind a retarget: the stated placement follows the document,
/// and nothing else moves.
pub open spec fn sparse_retargeted(
    recorded: SparseVectorDataConfig,
    target: SparseTarget,
) -> SparseVectorDataConfig {
    SparseVectorDataConfig {
        index: SparseIndexConfig { memory: target.raw_memory, ..recorded.index },
        ..recorded
    }
}

/// The lines on what a retarget changes of a sparse vector.
pub open spec fn sparse_changes(
    name: Seq<char>,
    recorded: SparseVectorDataConfig,
    target: SparseTarget,
) -> Seq<Seq<char>> {
    if recorded.index.memory != target.raw_memory {
        seq![
            "sparse `"@ + name + "` memory "@ + placement_text(recorded.index.memory) + " -> "@
                + placement_text(target.raw_memory),
        ]
    } else {
        Seq::empty()
    }
}

fn check_sparse(name: &str, recorded: &SparseVectorDataConfig, target: &SparseTarget) -> (outcome:
    Result<(), String>)
    ensures
        match outcome {
            Ok(()) => sparse_refusal(name@, *recorded, *target) is None,
            Err(message) => sparse_refusal(name@, *recorded, *target) == Some(message@),
        },
{
    if recorded.storage_type != target.plain.storage_type {
        let why = text::cat5(
            "storage type ",
            recorded.storage_type.display_name(),
            " vs ",
            target.plain.storage_type.display_name(),
            "; not retargetable",
        );
        return Err(sparse_message(name, why.as_str()));
    }
    if recorded.modifier != target.plain.modifier {
        return Err(
            sparse_message(
                name,
                "modifier differs from the document; the stored weights would be wrong, so this is not retargetable",
            ),
        );
    }
    if recorded.index.datatype != target.plain.index.datatype {
        return Err(sparse_message(name, "index datatype differs; not retargetable"));
    }
    if recorded.index.full_scan_threshold != target.plain.index.full_scan_threshold {
        return Err(
            sparse_message(
                name,
                "full_scan_threshold differs from the document; a fresh build would record the new value, so re-plan and re-build instead",
            ),
        );
    }
    let pruning_ok: bool = match recorded.index.index_type {
        SparseIndexType::MutableRam => recorded.index.wand_pruning.is_none()
            || recorded.index.wand_pruning == target.plain.index.wand_pruning,
        SparseIndexType::ImmutableRam | SparseIndexType::Mmap =>
            recorded.index.wand_pruning.is_none(),
    };
    if !pruning_ok {
        return Err(
            sparse_message(
                name,
                "wand_pruning differs from the document; it shapes the mutable index's search behaviour and is frozen at plan \u{2014} re-plan instead",
            ),
        );
    }
    if recorded.index.index_type != SparseIndexType::MutableRam {
        let class: SparseIndexType = if target.placement == Some(Memory::Pinned) {
            SparseIndexType::ImmutableRam
        } else {
            SparseIndexType::Mmap
        };
        if recorded.index.index_type != class {
            let why = text::cat5(
                "the requested placement needs index type ",
                class.display_name(),
                " but the segment was built as ",
                recorded.index.index_type.display_name(),
                "; pinned flips change the index structure, so this needs a re-plan and re-build",
            );
            return Err(sparse_message(name, why.as_str()));
        }
    }
    Ok(())
}

/// Rewrite what is recorded of a sparse vector, and add one line per changed field. A vector that is
/// refused stays as it is.
pub fn retarget_sparse(
    name: &str,
    recorded: &mut SparseVectorDataConfig,
    target: &SparseTarget,
    changes: &mut Vec<String>,
) -> (outcome: Result<(), String>)
    ensures
        match outcome {
            Ok(()) => {
                &&& sparse_refusal(name@, *old(recorded), *target) is None
                &&& *final(recorded) == sparse_retargeted(*old(recorded), *target)
                &&& text::texts(final(changes)@) == text::texts(old(changes)@) + sparse_changes(
                    name@,
                    *old(recorded),
                    *target,
                )
            },
            Err(message) => {
                &&& sparse_refusal(name@, *old(recorded), *target) == Some(message@)
                &&& *final(recorded) == *old(recorded)
                &&& final(changes)@ == old(changes)@
            },
        },
{
    match check_sparse(name, recorded, target) {
        Ok(()) => {},
        Err(message) => {
            return Err(message);
        },
    }
    let ghost was = text::texts(changes@);
    let ghost before = *recorded;
    if recorded.index.memory != target.raw_memory {
        let line = text::cat6(
            "sparse `",
            name,
            "` memory ",
            placement_string(recorded.index.memory).as_str(),
            " -> ",
            placement_string(target.raw_memory).as_str(),
        );
        let ghost lines = changes@;
        let ghost said = line@;
        changes.push(line);
        assert(text::texts(changes@) =~= text::texts(lines).push(said));
        recorded.index.memory = target.raw_memory;
    }
    assert(text::texts(changes@) =~= was + sparse_changes(name@, before, *target));
    Ok(())
}

/// What a segment's recorded config holds.
pub struct SegmentView {
    pub dense: Seq<(Seq<char>, DenseView)>,
    pub sparse: Seq<(Seq<char>, SparseVectorDataConfig)>,
    pub payload: PayloadStorageType,
}

/// What a table of dense configs holds.
pub open spec fn dense_table_view(table: Seq<(Seq<char>, VectorDataConfig)>) -> Seq<
    (Seq<char>, DenseView),
> {
    Seq::new(table.len(), |i: int| (table[i].0, table[i].1@))
}

impl SegmentConfig {
    pub open spec fn view(self) -> SegmentView {
        SegmentView {
            dense: dense_table_view(self.vector_data@),
            sparse: self.sparse_vector_data@,
            payload: self.payload_storage_type,
        }
    }
}

/// What the document wants of the dense vector of that name.
pub open spec fn dense_wanted(targets: PlacementTargets, name: Seq<char>) -> DenseTarget {
    names::value_of(targets.dense@, name).unwrap()
}

/// What the document wants of the sparse vector of that name.
pub open spec fn sparse_wanted(targets: PlacementTargets, name: Seq<char>) -> SparseTarget {
    names::value_of(targets.sparse@, name).unwrap()
}

/// Why the vector sets of a segment and a document do not match: the first vector that one of them
/// lacks.
pub open spec fn set_refusal(targets: PlacementTargets, config: SegmentView) -> Option<Seq<char>> {
    let extra_dense = names::left_out(names::keys(config.dense), names::key_set(targets.dense@));
    let missing_dense = names::left_out(names::keys(targets.dense@), names::key_set(config.dense));
    let extra_sparse = names::left_out(names::keys(config.sparse), names::key_set(targets.sparse@));
    let missing_sparse = names::left_out(
        names::keys(targets.sparse@),
        names::key_set(config.sparse),
    );
    if extra_dense.len() > 0 {
        Some(
            "segment carries dense vector `"@ + extra_dense[0]
                + "` that the document does not declare"@,
        )
    } else if missing_dense.len() > 0 {
        Some(
            "document declares dense vector `"@ + missing_dense[0]
                + "` that the segment does not carry"@,
        )
    } else if extra_sparse.len() > 0 {
        Some(
            "segment carries sparse vector `"@ + extra_sparse[0]
                + "` that the document does not declare"@,
        )
    } else if missing_sparse.len() > 0 {
        Some(
            "document declares sparse vector `"@ + missing_sparse[0]
                + "` that the segment does not carry"@,
        )
    } else {
        None
    }
}

/// The first refusal among the dense vectors from position `from`.
pub open spec fn dense_refusals(
    targets: PlacementTargets,
    dense: Seq<(Seq<char>, DenseView)>,
    from: int,
) -> Option<Seq<char>>
    decreases dense.len() - from,
{
    if from < 0 || from >= dense.len() {
        None
    } else {
        match dense_refusal(
            dense[from].0,
            dense[from].1,
            dense_wanted(targets, dense[from].0),
            targets.single_file_mmap_vector_storage,
        ) {
            Some(message) => Some(message),
            None => dense_refusals(targets, dense, from + 1),
        }
    }
}

/// The first refusal among the sparse vectors from position `from`.
pub open spec fn sparse_refusals(
    targets: PlacementTargets,
    sparse: Seq<(Seq<char>, SparseVectorDataConfig)>,
    from: int,
) -> Option<Seq<char>>
    decreases sparse.len() - from,
{
    if from < 0 || from >= sparse.len() {
        None
    } else {
        match sparse_refusal(
            sparse[from].0,
            sparse[from].1,
            sparse_wanted(targets, sparse[from].0),
        ) {
            Some(message) => Some(message),
            None => sparse_refusals(targets, sparse, from + 1),
        }
    }
}

/// Why a segment cannot be retargeted: a difference that is not a placement.
pub open spec fn config_refusal(targets: PlacementTargets, config: SegmentView) -> Option<
    Seq<char>,
> {
    match set_refusal(targets, config) {
        Some(message) => Some(message),
        None => match dense_refusals(targets, config.dense, 0) {
            Some(message) => Some(message),
            None => sparse_refusals(targets, config.sparse, 0),
        },
    }
}

/// The recorded config behind a retarget.
pub open spec fn config_retargeted(targets: PlacementTargets, config: SegmentView) -> SegmentView {
    SegmentView {
        dense: Seq::new(
            config.dense.len(),
            |i: int|
                (
                    config.dense[i].0,
                    dense_retargeted(
                        config.dense[i].1,
                        dense_wanted(targets, config.dense[i].0),
                    ),
                ),
        ),
        sparse: Seq::new(
            config.sparse.len(),
            |i: int|
                (
                    config.sparse[i].0,
                    sparse_retargeted(
                        config.sparse[i].1,
                        sparse_wanted(targets, config.sparse[i].0),
                    ),
                ),
        ),
        payload: targets.payload_storage,
    }
}

/// The lines on the changes of the dense vectors.
pub open spec fn all_dense_changes(
    targets: PlacementTargets,
    dense: Seq<(Seq<char>, DenseView)>,
) -> Seq<Seq<char>>
    decreases dense.len(),
{
    if dense.len() == 0 {
        Seq::empty()
    } else {
        all_dense_changes(targets, dense.drop_last()) + dense_changes(
            dense.last().0,
            dense.last().1,
            dense_wanted(targets, dense.last().0),
        )
    }
}

/// The lines on the changes of the sparse vectors.
pub open spec fn all_sparse_changes(
    targets: PlacementTargets,
    sparse: Seq<(Seq<char>, SparseVectorDataConfig)>,
) -> Seq<Seq<char>>
    decreases sparse.len(),
{
    if sparse.len() == 0 {
        Seq::empty()
    } else {
        all_sparse_changes(targets, sparse.drop_last()) + sparse_changes(
            sparse.last().0,
            sparse.last().1,
            sparse_wanted(targets, sparse.last().0),
        )
    }
}

/// The line on a change of the payload storage.
pub open spec fn payload_changes(targets: PlacementTargets, payload: PayloadStorageType) -> Seq<
    Seq<char>,
> {
    if payload != targets.payload_storage {
        seq![
            "payload storage "@ + payload.name() + " -> "@ + targets.payload_storage.name(),
        ]
    } else {
        Seq::empty()
    }
}

/// The lines on what a retarget changes, one per changed field.
pub open spec fn config_changes(targets: PlacementTargets, config: SegmentView) -> Seq<Seq<char>> {
    payload_changes(targets, config.payload) + all_dense_changes(targets, config.dense)
        + all_sparse_changes(targets, config.sparse)
}

fn check_sets(targets: &PlacementTargets, config: &SegmentConfig) -> (outcome: Result<(), String>)
    ensures
        match outcome {
            Ok(()) => set_refusal(*targets, config@) is None,
            Err(message) => set_refusal(*targets, config@) == Some(message@),
        },
{
    proof {
        assert(names::keys(config@.dense) =~= names::keys(config.vector_data@));
        lemma_key_sets(config.vector_data@);
    }
    match names::first_left_out(&config.vector_data, &targets.dense) {
        Some(name) => {
            return Err(
                text::cat3(
                    "segment carries dense vector `",
                    name.as_str(),
                    "` that the document does not declare",
                ),
            );
        },
        None => {},
    }
    match names::first_left_out(&targets.dense, &config.vector_data) {
        Some(name) => {
            return Err(
                text::cat3(
                    "document declares dense vector `",
                    name.as_str(),
                    "` that the segment does not carry",
                ),
            );
        },
        None => {},
    }
    match names::first_left_out(&config.sparse_vector_data, &targets.sparse) {
        Some(name) => {
            return Err(
                text::cat3(
                    "segment carries sparse vector `",
                    name.as_str(),
                    "` that the document does not declare",
                ),
            );
        },
        None => {},
    }
    match names::first_left_out(&targets.sparse, &config.sparse_vector_data) {
        Some(name) => {
            return Err(
                text::cat3(
                    "document declares sparse vector `",
                    name.as_str(),
                    "` that the segment does not carry",
                ),
            );
        },
        None => {},
    }
    Ok(())
}

/// A table and its view have the same names.
proof fn lemma_key_sets(table: Seq<(Seq<char>, VectorDataConfig)>)
    ensures
        names::key_set(dense_table_view(table)) =~= names::key_set(table),
        forall|name: Seq<char>| #[trigger]
            names::has_key(dense_table_view(table), name) == names::has_key(table, name),
{
    assert forall|name: Seq<char>| #[trigger]
        names::has_key(dense_table_view(table), name) == names::has_key(table, name) by {
        if names::has_key(table, name) {
            let i = choose|i: int| 0 <= i < table.len() && #[trigger] table[i].0 == name;
            assert(dense_table_view(table)[i].0 == name);
        }
        if names::has_key(dense_table_view(table), name) {
            let i = choose|i: int|
                0 <= i < dense_table_view(table).len() && #[trigger] dense_table_view(table)[i].0
                    == name;
            assert(table[i].0 == name);
        }
    }
}

/// Where the sets match, the document wants something of every vector.
proof fn lemma_sets_match(targets: PlacementTargets, config: SegmentView)
    requires
        set_refusal(targets, config) is None,
    ensures
        forall|i: int|
            0 <= i < config.dense.len() ==> names::has_key(
                targets.dense@,
                (#[trigger] config.dense[i]).0,
            ),
        forall|i: int|
            0 <= i < config.sparse.len() ==> names::has_key(
                targets.sparse@,
                (#[trigger] config.sparse[i]).0,
            ),
{
    names::lemma_left_out(names::keys(config.dense), names::key_set(targets.dense@));
    names::lemma_left_out(names::keys(config.sparse), names::key_set(targets.sparse@));
    assert forall|i: int| 0 <= i < config.dense.len() implies names::has_key(
        targets.dense@,
        (#[trigger] config.dense[i]).0,
    ) by {
        let name = config.dense[i].0;
        assert(names::keys(config.dense)[i] == name);
        assert(names::keys(config.dense).contains(name));
        assert(!names::left_out(
            names::keys(config.dense),
            names::key_set(targets.dense@),
        ).contains(name));
    }
    assert forall|i: int| 0 <= i < config.sparse.len() implies names::has_key(
        targets.sparse@,
        (#[trigger] config.sparse[i]).0,
    ) by {
        let name = config.sparse[i].0;
        assert(names::keys(config.sparse)[i] == name);
        assert(names::keys(config.sparse).contains(name));
        assert(!names::left_out(
            names::keys(config.sparse),
            names::key_set(targets.sparse@),
        ).contains(name));
    }
}

fn check_config(targets: &PlacementTargets, config: &SegmentConfig) -> (outcome: Result<(), String>)
    ensures
        match outcome {
            Ok(()) => config_refusal(*targets, config@) is None,
            Err(message) => config_refusal(*targets, config@) == Some(message@),
        },
{
    match check_sets(targets, config) {
        Ok(()) => {},
        Err(message) => {
            return Err(message);
        },
    }
    proof {
        lemma_sets_match(*targets, config@);
    }
    let mut i: usize = 0;
    while i < config.vector_data.len()
        invariant
            i <= config.vector_data@.len(),
            set_refusal(*targets, config@) is None,
            forall|k: int|
                0 <= k < config@.dense.len() ==> names::has_key(
                    targets.dense@,
                    (#[trigger] config@.dense[k]).0,
                ),
            dense_refusals(*targets, config@.dense, 0) == dense_refusals(
                *targets,
                config@.dense,
                i as int,
            ),
        decreases config.vector_data@.len() - i,
    {
        let name = config.vector_data.name_at(i);
        assert(config@.dense[i as int].0 == name@);
        match targets.dense.get(name.as_str()) {
            Some(target) => match check_dense(
                name.as_str(),
                config.vector_data.value_at(i),
                target,
                targets.single_file_mmap_vector_storage,
            ) {
                Ok(()) => {},
                Err(message) => {
                    return Err(message);
                },
            },
            None => {
                assert(false);
            },
        }
        i = i + 1;
    }
    let mut i: usize = 0;
    while i < config.sparse_vector_data.len()
        invariant
            i <= config.sparse_vector_data@.len(),
            set_refusal(*targets, config@) is None,
            dense_refusals(*targets, config@.dense, 0) is None,
            forall|k: int|
                0 <= k < config@.sparse.len() ==> names::has_key(
                    targets.sparse@,
                    (#[trigger] config@.sparse[k]).0,
                ),
            sparse_refusals(*targets, config@.sparse, 0) == sparse_refusals(
                *targets,
                config@.sparse,
                i as int,
            ),
        decreases config.sparse_vector_data@.len() - i,
    {
        let name = config.sparse_vector_data.name_at(i);
        assert(config@.sparse[i as int].0 == name@);
        match targets.sparse.get(name.as_str()) {
            Some(target) => match check_sparse(
                name.as_str(),
                config.sparse_vector_data.value_at(i),
                target,
            ) {
                Ok(()) => {},
                Err(message) => {
                    return Err(message);
                },
            },
            None => {
                assert(false);
            },
        }
        i = i + 1;
    }
    Ok(())
}

/// Where no refusal is left from `from` on, none of those vectors is refused.
proof fn lemma_no_refusal(
    targets: PlacementTargets,
    dense: Seq<(Seq<char>, DenseView)>,
    from: int,
    i: int,
)
    requires
        0 <= from <= i < dense.len(),
        dense_refusals(targets, dense, from) is None,
    ensures
        dense_refusal(
            dense[i].0,
            dense[i].1,
            dense_wanted(targets, dense[i].0),
            targets.single_file_mmap_vector_storage,
        ) is None,
    decreases i - from,
{
    if from < i {
        lemma_no_refusal(targets, dense, from + 1, i);
    }
}

proof fn lemma_no_sparse_refusal(
    targets: PlacementTargets,
    sparse: Seq<(Seq<char>, SparseVectorDataConfig)>,
    from: int,
    i: int,
)
    requires
        0 <= from <= i < sparse.len(),
        sparse_refusals(targets, sparse, from) is None,
    ensures
        sparse_refusal(sparse[i].0, sparse[i].1, sparse_wanted(targets, sparse[i].0)) is None,
    decreases i - from,
{
    if from < i {
        lemma_no_sparse_refusal(targets, sparse, from + 1, i);
    }
}

/// Rewrites the dense vectors of a segment that is not refused.
fn rewrite_dense(
    targets: &PlacementTargets,
    table: NameMap<VectorDataConfig>,
    changes: &mut Vec<String>,
) -> (rewritten: NameMap<VectorDataConfig>)
    requires
        dense_refusals(*targets, dense_table_view(table@), 0) is None,
        forall|i: int| 0 <= i < table@.len() ==> names::has_key(targets.dense@, (#[trigger] table@[i]).0),
    ensures
        dense_table_view(rewritten@) == Seq::new(
            table@.len(),
            |i: int|
                (
                    table@[i].0,
                    dense_retargeted(table@[i].1@, dense_wanted(*targets, table@[i].0)),
                ),
        ),
        text::texts(final(changes)@) == text::texts(old(changes)@) + all_dense_changes(
            *targets,
            dense_table_view(table@),
        ),
{
    let ghost given = table@;
    let ghost before = dense_table_view(given);
    let ghost said = text::texts(changes@);
    let count: usize = table.len();
    let mut entries = table.into_entries();
    let mut out: Vec<(String, VectorDataConfig)> = Vec::new();
    let mut i: usize = 0;
    proof {
        assert forall|k: int| 0 <= k < count implies (#[trigger] entries@[k]).0@ == given[0 + k].0
            && entries@[k].1 == given[0 + k].1 by {
            assert(entries@[k].0@ == given[k].0);
        }
        assert(before.take(0) =~= Seq::empty());
        assert(said + all_dense_changes(*targets, before.take(0)) =~= said);
    }
    while i < count
        invariant
            i <= count,
            count == given.len(),
            names::sorted_keys(given),
            before == dense_table_view(given),
            dense_refusals(*targets, before, 0) is None,
            forall|k: int|
                0 <= k < given.len() ==> names::has_key(targets.dense@, (#[trigger] given[k]).0),
            entries@.len() == count - i,
            forall|k: int|
                0 <= k < count - i ==> (#[trigger] entries@[k]).0@ == given[i + k].0
                    && entries@[k].1 == given[i + k].1,
            out@.len() == i,
            forall|k: int|
                0 <= k < i ==> (#[trigger] out@[k]).0@ == given[k].0 && out@[k].1@
                    == dense_retargeted(given[k].1@, dense_wanted(*targets, given[k].0)),
            text::texts(changes@) == said + all_dense_changes(*targets, before.take(i as int)),
        decreases count - i,
    {
        let ghost was = entries@;
        let (name, mut data) = entries.remove(0);
        proof {
            assert(was[0].0@ == given[i + 0].0);
            assert forall|k: int| 0 <= k < count - i - 1 implies (#[trigger] entries@[k]).0@
                == given[i + 1 + k].0 && entries@[k].1 == given[i + 1 + k].1 by {
                assert(entries@[k] == was[k + 1]);
                assert(was[k + 1].0@ == given[i + (k + 1)].0);
            }
            assert(names::has_key(targets.dense@, given[i as int].0));
            lemma_no_refusal(*targets, before, 0, i as int);
            assert(before.take(i + 1).drop_last() =~= before.take(i as int));
        }
        match targets.dense.get(name.as_str()) {
            Some(target) => {
                let outcome = retarget_dense(
                    name.as_str(),
                    &mut data,
                    target,
                    targets.single_file_mmap_vector_storage,
                    changes,
                );
                assert(outcome is Ok);
            },
            None => {
                assert(false);
            },
        }
        out.push((name, data));
        assert(text::texts(changes@) =~= said + all_dense_changes(*targets, before.take(i + 1)));
        i = i + 1;
    }
    assert(before.take(count as int) =~= before);
    proof {
        let o = Seq::new(out@.len(), |k: int| (out@[k].0@, out@[k].1));
        lemma_same_names(given, o);
    }
    let rewritten = NameMap::from_entries(out);
    assert(dense_table_view(rewritten@) =~= Seq::new(
        given.len(),
        |i: int|
            (given[i].0, dense_retargeted(given[i].1@, dense_wanted(*targets, given[i].0))),
    ));
    rewritten
}

/// Rewrites the sparse vectors of a segment that is not refused.
fn rewrite_sparse(
    targets: &PlacementTargets,
    table: &mut NameMap<SparseVectorDataConfig>,
    changes: &mut Vec<String>,
)
    requires
        sparse_refusals(*targets, old(table)@, 0) is None,
        forall|i: int|
            0 <= i < old(table)@.len() ==> names::has_key(
                targets.sparse@,
                (#[trigger] old(table)@[i]).0,
            ),
    ensures
        final(table)@ == Seq::new(
            old(table)@.len(),
            |i: int|
                (
                    old(table)@[i].0,
                    sparse_retargeted(
                        old(table)@[i].1,
                        sparse_wanted(*targets, old(table)@[i].0),
                    ),
                ),
        ),
        text::texts(final(changes)@) == text::texts(old(changes)@) + all_sparse_changes(
            *targets,
            old(table)@,
        ),
{
    let ghost given = table@;
    let ghost said = text::texts(changes@);
    let mut i: usize = 0;
    assert(given.take(0) =~= Seq::empty());
    assert(said + all_sparse_changes(*targets, given.take(0)) =~= said);
    while i < table.len()
        invariant
            i <= table@.len(),
            table@.len() == given.len(),
            sparse_refusals(*targets, given, 0) is None,
            forall|k: int|
                0 <= k < given.len() ==> names::has_key(targets.sparse@, (#[trigger] given[k]).0),
            forall|k: int|
                0 <= k < i ==> #[trigger] table@[k] == (
                    given[k].0,
                    sparse_retargeted(given[k].1, sparse_wanted(*targets, given[k].0)),
                ),
            forall|k: int| i <= k < given.len() ==> #[trigger] table@[k] == given[k],
            text::texts(changes@) == said + all_sparse_changes(*targets, given.take(i as int)),
        decreases given.len() - i,
    {
        proof {
            assert(table@[i as int] == given[i as int]);
            assert(names::has_key(targets.sparse@, given[i as int].0));
            lemma_no_sparse_refusal(*targets, given, 0, i as int);
            assert(given.take(i + 1).drop_last() =~= given.take(i as int));
        }
        let name = table.name_at(i).clone();
        let mut data: SparseVectorDataConfig = *table.value_at(i);
        match targets.sparse.get(name.as_str()) {
            Some(target) => {
                let outcome = retarget_sparse(name.as_str(), &mut data, target, changes);
                assert(outcome is Ok);
            },
            None => {
                assert(false);
            },
        }
        table.set_at(i, data);
        assert(text::texts(changes@) =~= said + all_sparse_changes(*targets, given.take(i + 1)));
        i = i + 1;
    }
    assert(given.take(given.len() as int) =~= given);
    assert(table@ =~= Seq::new(
        given.len(),
        |i: int| (given[i].0, sparse_retargeted(given[i].1, sparse_wanted(*targets, given[i].0))),
    ));
}

/// Rewrite one recorded config in place, and return one line per changed field. A config that
/// differs from the document in anything but placement is refused and stays as it is.
pub fn retarget_config(targets: &PlacementTargets, config: &mut SegmentConfig) -> (changes: Result<
    Vec<String>,
    String,
>)
    ensures
        match changes {
            Ok(changes) => {
                &&& config_refusal(*targets, old(config)@) is None
                &&& final(config)@ == config_retargeted(*targets, old(config)@)
                &&& text::texts(changes@) == config_changes(*targets, old(config)@)
            },
            Err(message) => {
                &&& config_refusal(*targets, old(config)@) == Some(message@)
                &&& *final(config) == *old(config)
            },
        },
{
    match check_config(targets, config) {
        Ok(()) => {},
        Err(message) => {
            return Err(message);
        },
    }
    let ghost before = config@;
    proof {
        lemma_sets_match(*targets, config@);
        assert forall|i: int| 0 <= i < config.vector_data@.len() implies names::has_key(
            targets.dense@,
            (#[trigger] config.vector_data@[i]).0,
        ) by {
            assert(config@.dense[i].0 == config.vector_data@[i].0);
        }
        assert(before.sparse == config.sparse_vector_data@);
    }
    let mut changes: Vec<String> = Vec::new();
    assert(text::texts(changes@) =~= Seq::empty());
    if config.payload_storage_type != targets.payload_storage {
        let line = text::cat4(
            "payload storage ",
            config.payload_storage_type.display_name(),
            " -> ",
            targets.payload_storage.display_name(),
        );
        let ghost said = line@;
        changes.push(line);
        assert(text::texts(changes@) =~= seq![said]);
        config.payload_storage_type = targets.payload_storage;
    }
    assert(text::texts(changes@) =~= payload_changes(*targets, before.payload));
    let mut dense: NameMap<VectorDataConfig> = NameMap::new();
    std::mem::swap(&mut dense, &mut config.vector_data);
    let rewritten = rewrite_dense(targets, dense, &mut changes);
    config.vector_data = rewritten;
    rewrite_sparse(targets, &mut config.sparse_vector_data, &mut changes);
    assert(text::texts(changes@) =~= config_changes(*targets, before));
    assert(config@.dense =~= config_retargeted(*targets, before).dense);
    assert(config@.sparse =~= config_retargeted(*targets, before).sparse);
    Ok(changes)
}

/// What a fresh build under a document records of a dense vector.
pub open spec fn fresh_dense(target: DenseTarget) -> DenseView {
    DenseView {
        index: Indexes::Hnsw(target.hnsw),
        quantization: json_view(target.quantization),
        storage_type: match target.placement {
            Some(Memory::Cached) | Some(Memory::Pinned) => VectorStorageType::InRamMmap,
            _ => VectorStorageType::Mmap,
        },
        ..target.plain@
    }
}

/// What a fresh build under a document records of a sparse vector.
pub open spec fn fresh_sparse(target: SparseTarget) -> SparseVectorDataConfig {
    SparseVectorDataConfig {
        index: SparseIndexConfig {
            index_type: sparse_class(target.placement),
            memory: target.raw_memory,
            wand_pruning: None,
            ..target.plain.index
        },
        ..target.plain
    }
}

/// What a fresh build under a document records of a segment.
pub open spec fn fresh_build(targets: PlacementTargets) -> SegmentView {
    SegmentView {
        dense: Seq::new(
            targets.dense@.len(),
            |i: int| (targets.dense@[i].0, fresh_dense(targets.dense@[i].1)),
        ),
        sparse: Seq::new(
            targets.sparse@.len(),
            |i: int| (targets.sparse@[i].0, fresh_sparse(targets.sparse@[i].1)),
        ),
        payload: targets.payload_storage,
    }
}

/// Whether a document states a placement for every dense vector.
pub open spec fn placements_stated(targets: PlacementTargets) -> bool {
    forall|i: int|
        0 <= i < targets.dense@.len() ==> (#[trigger] targets.dense@[i]).1.placement is Some
}

/// Two tables whose names are the same set, each in order, have the same names at the same places.
proof fn lemma_same_order<S, T>(a: Seq<(Seq<char>, S)>, b: Seq<(Seq<char>, T)>)
    requires
        names::sorted_keys(a),
        names::sorted_keys(b),
        forall|i: int| 0 <= i < a.len() ==> names::has_key(b, (#[trigger] a[i]).0),
        forall|i: int| 0 <= i < b.len() ==> names::has_key(a, (#[trigger] b[i]).0),
    ensures
        names::keys(a) == names::keys(b),
    decreases a.len(),
{
    if a.len() == 0 || b.len() == 0 {
        if a.len() > 0 {
            assert(names::has_key(b, a[0].0));
        }
        if b.len() > 0 {
            assert(names::has_key(a, b[0].0));
        }
        assert(names::keys(a) =~= names::keys(b));
    } else {
        let x = a.len() - 1;
        let y = b.len() - 1;
        assert(names::has_key(b, a[x].0));
        assert(names::has_key(a, b[y].0));
        let j = choose|j: int| 0 <= j < b.len() && #[trigger] b[j].0 == a[x].0;
        let i = choose|i: int| 0 <= i < a.len() && #[trigger] a[i].0 == b[y].0;
        if a[x].0 != b[y].0 {
            assert(text::text_lt(b[j].0, b[y].0));
            assert(text::text_lt(a[i].0, a[x].0));
            text::text_lt_trichotomy(a[x].0, b[y].0);
        }
        let c = a.drop_last();
        let d = b.drop_last();
        assert(names::sorted_keys(c)) by {
            assert forall|p: int, q: int| 0 <= p < q < c.len() implies text::text_lt(
                #[trigger] c[p].0,
                #[trigger] c[q].0,
            ) by {
                assert(text::text_lt(a[p].0, a[q].0));
            }
        }
        assert(names::sorted_keys(d)) by {
            assert forall|p: int, q: int| 0 <= p < q < d.len() implies text::text_lt(
                #[trigger] d[p].0,
                #[trigger] d[q].0,
            ) by {
                assert(text::text_lt(b[p].0, b[q].0));
            }
        }
        assert forall|p: int| 0 <= p < c.len() implies names::has_key(d, (#[trigger] c[p]).0) by {
            assert(names::has_key(b, a[p].0));
            let q = choose|q: int| 0 <= q < b.len() && #[trigger] b[q].0 == a[p].0;
            assert(text::text_lt(a[p].0, a[x].0));
            text::text_lt_trichotomy(a[p].0, a[x].0);
            assert(q < y);
            assert(d[q].0 == c[p].0);
        }
        assert forall|p: int| 0 <= p < d.len() implies names::has_key(c, (#[trigger] d[p]).0) by {
            assert(names::has_key(a, b[p].0));
            let q = choose|q: int| 0 <= q < a.len() && #[trigger] a[q].0 == b[p].0;
            assert(text::text_lt(b[p].0, b[y].0));
            text::text_lt_trichotomy(b[p].0, b[y].0);
            assert(q < x);
            assert(c[q].0 == d[p].0);
        }
        lemma_same_order(c, d);
        assert(names::keys(c).len() == names::keys(d).len());
        assert forall|k: int| 0 <= k < a.len() implies names::keys(a)[k] == names::keys(b)[k] by {
            if k < x {
                assert(names::keys(c)[k] == names::keys(d)[k]);
            }
        }
        assert(names::keys(a) =~= names::keys(b));
    }
}

/// Where the sets match, the vectors of the segment and of the document stand at the same places.
proof fn lemma_aligned(targets: PlacementTargets, config: SegmentView)
    requires
        set_refusal(targets, config) is None,
        names::sorted_keys(targets.dense@),
        names::sorted_keys(targets.sparse@),
        names::sorted_keys(config.dense),
        names::sorted_keys(config.sparse),
    ensures
        names::keys(config.dense) == names::keys(targets.dense@),
        names::keys(config.sparse) == names::keys(targets.sparse@),
{
    lemma_sets_match(targets, config);
    names::lemma_left_out(names::keys(targets.dense@), names::key_set(config.dense));
    names::lemma_left_out(names::keys(targets.sparse@), names::key_set(config.sparse));
    assert forall|i: int| 0 <= i < targets.dense@.len() implies names::has_key(
        config.dense,
        (#[trigger] targets.dense@[i]).0,
    ) by {
        let name = targets.dense@[i].0;
        assert(names::keys(targets.dense@)[i] == name);
        assert(names::keys(targets.dense@).contains(name));
        assert(!names::left_out(
            names::keys(targets.dense@),
            names::key_set(config.dense),
        ).contains(name));
    }
    assert forall|i: int| 0 <= i < targets.sparse@.len() implies names::has_key(
        config.sparse,
        (#[trigger] targets.sparse@[i]).0,
    ) by {
        let name = targets.sparse@[i].0;
        assert(names::keys(targets.sparse@)[i] == name);
        assert(names::keys(targets.sparse@).contains(name));
        assert(!names::left_out(
            names::keys(targets.sparse@),
            names::key_set(config.sparse),
        ).contains(name));
    }
    lemma_same_order(config.dense, targets.dense@);
    lemma_same_order(config.sparse, targets.sparse@);
}

/// Tables with the same names leave out the same names.
proof fn lemma_same_keys<S, T>(a: Seq<(Seq<char>, S)>, b: Seq<(Seq<char>, T)>)
    requires
        names::keys(a) == names::keys(b),
    ensures
        names::key_set(a) =~= names::key_set(b),
{
    assert(a.len() == names::keys(a).len() && b.len() == names::keys(b).len());
    assert forall|name: Seq<char>| #[trigger]
        names::has_key(a, name) == names::has_key(b, name) by {
        if names::has_key(a, name) {
            let i = choose|i: int| 0 <= i < a.len() && #[trigger] a[i].0 == name;
            assert(names::keys(a)[i] == names::keys(b)[i]);
            assert(b[i].0 == name);
        }
        if names::has_key(b, name) {
            let i = choose|i: int| 0 <= i < b.len() && #[trigger] b[i].0 == name;
            assert(names::keys(a)[i] == names::keys(b)[i]);
            assert(a[i].0 == name);
        }
    }
}

/// A config that no vector's refusal stands against is not refused.
proof fn lemma_accepts(targets: PlacementTargets, config: SegmentView, from: int)
    requires
        0 <= from,
        forall|i: int|
            from <= i < config.dense.len() ==> dense_refusal(
                (#[trigger] config.dense[i]).0,
                config.dense[i].1,
                dense_wanted(targets, config.dense[i].0),
                targets.single_file_mmap_vector_storage,
            ) is None,
        forall|i: int|
            from <= i < config.sparse.len() ==> sparse_refusal(
                (#[trigger] config.sparse[i]).0,
                config.sparse[i].1,
                sparse_wanted(targets, config.sparse[i].0),
            ) is None,
    ensures
        dense_refusals(targets, config.dense, from) is None,
        sparse_refusals(targets, config.sparse, from) is None,
    decreases config.dense.len() + config.sparse.len() - from,
{
    if from < config.dense.len() || from < config.sparse.len() {
        if from < config.dense.len() {
            assert(config.dense[from] == config.dense[from]);
        }
        if from < config.sparse.len() {
            assert(config.sparse[from] == config.sparse[from]);
        }
        lemma_accepts(targets, config, from + 1);
    }
}

/// Vectors without changes of their own add no lines.
proof fn lemma_no_dense_changes(targets: PlacementTargets, dense: Seq<(Seq<char>, DenseView)>)
    requires
        forall|i: int|
            0 <= i < dense.len() ==> dense_changes(
                (#[trigger] dense[i]).0,
                dense[i].1,
                dense_wanted(targets, dense[i].0),
            ).len() == 0,
    ensures
        all_dense_changes(targets, dense).len() == 0,
    decreases dense.len(),
{
    if dense.len() > 0 {
        assert forall|i: int| 0 <= i < dense.drop_last().len() implies dense_changes(
            (#[trigger] dense.drop_last()[i]).0,
            dense.drop_last()[i].1,
            dense_wanted(targets, dense.drop_last()[i].0),
        ).len() == 0 by {
            assert(dense.drop_last()[i] == dense[i]);
        }
        lemma_no_dense_changes(targets, dense.drop_last());
        assert(dense.last() == dense[dense.len() - 1]);
    }
}

proof fn lemma_no_sparse_changes(
    targets: PlacementTargets,
    sparse: Seq<(Seq<char>, SparseVectorDataConfig)>,
)
    requires
        forall|i: int|
            0 <= i < sparse.len() ==> sparse_changes(
                (#[trigger] sparse[i]).0,
                sparse[i].1,
                sparse_wanted(targets, sparse[i].0),
            ).len() == 0,
    ensures
        all_sparse_changes(targets, sparse).len() == 0,
    decreases sparse.len(),
{
    if sparse.len() > 0 {
        assert forall|i: int| 0 <= i < sparse.drop_last().len() implies sparse_changes(
            (#[trigger] sparse.drop_last()[i]).0,
            sparse.drop_last()[i].1,
            sparse_wanted(targets, sparse.drop_last()[i].0),
        ).len() == 0 by {
            assert(sparse.drop_last()[i] == sparse[i]);
        }
        lemma_no_sparse_changes(targets, sparse.drop_last());
        assert(sparse.last() == sparse[sparse.len() - 1]);
    }
}

/// Retargeting is idempotent: a retargeted config is accepted again, and nothing is left to change.
pub proof fn retargeting_is_idempotent(targets: PlacementTargets, config: SegmentView)
    requires
        config_refusal(targets, config) is None,
    ensures
        config_refusal(targets, config_retargeted(targets, config)) is None,
        config_retargeted(targets, config_retargeted(targets, config)) == config_retargeted(
            targets,
            config,
        ),
        config_changes(targets, config_retargeted(targets, config)).len() == 0,
{
    let after = config_retargeted(targets, config);
    assert(names::keys(after.dense) =~= names::keys(config.dense));
    assert(names::keys(after.sparse) =~= names::keys(config.sparse));
    lemma_same_keys(after.dense, config.dense);
    lemma_same_keys(after.sparse, config.sparse);
    assert(set_refusal(targets, after) == set_refusal(targets, config));
    assert forall|i: int| 0 <= i < after.dense.len() implies {
        &&& dense_refusal(
            (#[trigger] after.dense[i]).0,
            after.dense[i].1,
            dense_wanted(targets, after.dense[i].0),
            targets.single_file_mmap_vector_storage,
        ) is None
        &&& dense_changes(
            after.dense[i].0,
            after.dense[i].1,
            dense_wanted(targets, after.dense[i].0),
        ).len() == 0
        &&& dense_retargeted(after.dense[i].1, dense_wanted(targets, after.dense[i].0))
            == after.dense[i].1
    } by {
        lemma_no_refusal(targets, config.dense, 0, i);
    }
    assert forall|i: int| 0 <= i < after.sparse.len() implies {
        &&& sparse_refusal(
            (#[trigger] after.sparse[i]).0,
            after.sparse[i].1,
            sparse_wanted(targets, after.sparse[i].0),
        ) is None
        &&& sparse_changes(
            after.sparse[i].0,
            after.sparse[i].1,
            sparse_wanted(targets, after.sparse[i].0),
        ).len() == 0
        &&& sparse_retargeted(after.sparse[i].1, sparse_wanted(targets, after.sparse[i].0))
            == after.sparse[i].1
    } by {
        lemma_no_sparse_refusal(targets, config.sparse, 0, i);
    }
    lemma_accepts(targets, after, 0);
    lemma_no_dense_changes(targets, after.dense);
    lemma_no_sparse_changes(targets, after.sparse);
    assert(config_retargeted(targets, after).dense =~= after.dense);
    assert(config_retargeted(targets, after).sparse =~= after.sparse);
}

/// What is wanted of a vector stands at its place.
proof fn lemma_wanted_at(targets: PlacementTargets)
    requires
        names::sorted_keys(targets.dense@),
        names::sorted_keys(targets.sparse@),
    ensures
        forall|i: int|
            0 <= i < targets.dense@.len() ==> dense_wanted(
                targets,
                (#[trigger] targets.dense@[i]).0,
            ) == targets.dense@[i].1,
        forall|i: int|
            0 <= i < targets.sparse@.len() ==> sparse_wanted(
                targets,
                (#[trigger] targets.sparse@[i]).0,
            ) == targets.sparse@[i].1,
{
    assert forall|i: int| 0 <= i < targets.dense@.len() implies dense_wanted(
        targets,
        (#[trigger] targets.dense@[i]).0,
    ) == targets.dense@[i].1 by {
        names::lemma_value_at(targets.dense@, i);
    }
    assert forall|i: int| 0 <= i < targets.sparse@.len() implies sparse_wanted(
        targets,
        (#[trigger] targets.sparse@[i]).0,
    ) == targets.sparse@[i].1 by {
        names::lemma_value_at(targets.sparse@, i);
    }
}

/// Retargeting a segment built under one document to another gives exactly what a fresh build under
/// the other records, wherever it is not refused and the other document states every dense
/// placement.
pub proof fn retargeting_equals_a_fresh_build(built: PlacementTargets, targets: PlacementTargets)
    requires
        names::sorted_keys(built.dense@),
        names::sorted_keys(built.sparse@),
        names::sorted_keys(targets.dense@),
        names::sorted_keys(targets.sparse@),
        placements_stated(targets),
        config_refusal(targets, fresh_build(built)) is None,
    ensures
        config_retargeted(targets, fresh_build(built)) == fresh_build(targets),
{
    let config = fresh_build(built);
    lemma_same_names(built.dense@, config.dense);
    lemma_same_names(built.sparse@, config.sparse);
    lemma_aligned(targets, config);
    lemma_wanted_at(targets);
    assert(names::keys(config.dense).len() == names::keys(targets.dense@).len());
    assert(names::keys(config.sparse).len() == names::keys(targets.sparse@).len());
    let after = config_retargeted(targets, config);
    let fresh = fresh_build(targets);
    assert forall|i: int| 0 <= i < after.dense.len() implies after.dense[i] == fresh.dense[i] by {
        assert(names::keys(config.dense)[i] == names::keys(targets.dense@)[i]);
        assert(config.dense[i].0 == targets.dense@[i].0);
        lemma_no_refusal(targets, config.dense, 0, i);
        assert(targets.dense@[i].1.placement is Some);
    }
    assert forall|i: int| 0 <= i < after.sparse.len() implies after.sparse[i]
        == fresh.sparse[i] by {
        assert(names::keys(config.sparse)[i] == names::keys(targets.sparse@)[i]);
        assert(config.sparse[i].0 == targets.sparse@[i].0);
        lemma_no_sparse_refusal(targets, config.sparse, 0, i);
    }
    assert(after.dense =~= fresh.dense);
    assert(after.sparse =~= fresh.sparse);
}

/// A document retargets its own fresh build without a change: it is accepted, stays as it is, and no
/// line is reported. A placement in RAM needs the storage that keeps to one file.
pub proof fn an_unchanged_document_changes_nothing(targets: PlacementTargets)
    requires
        names::sorted_keys(targets.dense@),
        names::sorted_keys(targets.sparse@),
        forall|i: int|
            0 <= i < targets.dense@.len() ==> targets.single_file_mmap_vector_storage || (
            #[trigger] targets.dense@[i]).1.placement == Some(Memory::Cold)
                || targets.dense@[i].1.placement is None,
    ensures
        config_refusal(targets, fresh_build(targets)) is None,
        config_retargeted(targets, fresh_build(targets)) == fresh_build(targets),
        config_changes(targets, fresh_build(targets)).len() == 0,
{
    let config = fresh_build(targets);
    lemma_wanted_at(targets);
    assert(names::keys(config.dense) =~= names::keys(targets.dense@));
    assert(names::keys(config.sparse) =~= names::keys(targets.sparse@));
    lemma_same_keys(config.dense, targets.dense@);
    lemma_same_keys(config.sparse, targets.sparse@);
    names::lemma_left_out(names::keys(config.dense), names::key_set(targets.dense@));
    names::lemma_left_out(names::keys(config.sparse), names::key_set(targets.sparse@));
    lemma_own_names(targets.dense@);
    lemma_own_names(targets.sparse@);
    assert(set_refusal(targets, config) is None);
    assert forall|i: int| 0 <= i < config.dense.len() implies {
        &&& dense_refusal(
            (#[trigger] config.dense[i]).0,
            config.dense[i].1,
            dense_wanted(targets, config.dense[i].0),
            targets.single_file_mmap_vector_storage,
        ) is None
        &&& dense_changes(
            config.dense[i].0,
            config.dense[i].1,
            dense_wanted(targets, config.dense[i].0),
        ).len() == 0
        &&& dense_retargeted(config.dense[i].1, dense_wanted(targets, config.dense[i].0))
            == config.dense[i].1
    } by {
        assert(config.dense[i].0 == targets.dense@[i].0);
    }
    assert forall|i: int| 0 <= i < config.sparse.len() implies {
        &&& sparse_refusal(
            (#[trigger] config.sparse[i]).0,
            config.sparse[i].1,
            sparse_wanted(targets, config.sparse[i].0),
        ) is None
        &&& sparse_changes(
            config.sparse[i].0,
            config.sparse[i].1,
            sparse_wanted(targets, config.sparse[i].0),
        ).len() == 0
        &&& sparse_retargeted(config.sparse[i].1, sparse_wanted(targets, config.sparse[i].0))
            == config.sparse[i].1
    } by {
        assert(config.sparse[i].0 == targets.sparse@[i].0);
    }
    lemma_accepts(targets, config, 0);
    lemma_no_dense_changes(targets, config.dense);
    lemma_no_sparse_changes(targets, config.sparse);
    assert(config_retargeted(targets, config).dense =~= config.dense);
    assert(config_retargeted(targets, config).sparse =~= config.sparse);
}

/// A table leaves none of its own names out.
proof fn lemma_own_names<T>(table: Seq<(Seq<char>, T)>)
    ensures
        names::left_out(names::keys(table), names::key_set(table)).len() == 0,
{
    let rest = names::left_out(names::keys(table), names::key_set(table));
    names::lemma_left_out(names::keys(table), names::key_set(table));
    if rest.len() > 0 {
        assert(rest.contains(rest[0]));
        let i = choose|i: int| 0 <= i < names::keys(table).len() && names::keys(table)[i] == rest[0];
        assert(table[i].0 == rest[0]);
        assert(names::has_key(table, rest[0]));
    }
}

/// Why a shard directory cannot be retargeted: it was not built, or its routing is unknown or
/// another.
pub open spec fn shard_refusal(
    shard: Seq<char>,
    has_segments: bool,
    stamped: Option<Seq<char>>,
    part: Seq<char>,
) -> Option<Seq<char>> {
    if !has_segments {
        Some(shard + " has no segments directory; retarget runs on built shards"@)
    } else {
        match stamped {
            None => Some(
                shard
                    + " has no build fingerprint (.sb-build-fingerprint); retarget runs on shards produced by this tool's build phase. Re-run build, or (for a hand-staged artifact) retarget is not supported."@,
            ),
            Some(stamped) => if stamped.len() == 0 {
                Some(
                    shard
                        + " has no routing fingerprint (built by an older tool version, or its build fingerprint is corrupt); retarget cannot verify the document does not change routing. Rebuild the shard with the current tool to retarget it, or assemble it directly without retargeting."@,
                )
            } else if stamped != part {
                Some(
                    shard
                        + " was built with different routing than the document given to retarget:\n  built part fingerprint:    "@
                        + stamped + "\n  retarget part fingerprint: "@ + part
                        + "\n\nRetarget only rewrites placement (cold/cached); it cannot change routing (shard_number, sharding_method, hash_ring_shard_scale, id column/format), which decides which point lands in which shard. A routing change needs a fresh scatter + plan + build. Re-run retarget with the build's document, changing only placement."@,
                )
            } else {
                None
            },
        }
    }
}

/// The routing that a shard is stamped with.
pub open spec fn stamped_part(stamped: Option<BuildFingerprint>) -> Option<Seq<char>> {
    match stamped {
        Some(stamped) => Some(stamped.part@),
        None => None,
    }
}

/// Whether a shard directory may be retargeted under a document: the routing that it was built with
/// must be the document's.
pub fn check_shard(
    shard: &str,
    has_segments: bool,
    stamped: &Option<BuildFingerprint>,
    config: &LoadedConfig,
) -> (outcome: Result<(), String>)
    ensures
        match outcome {
            Ok(()) => shard_refusal(
                shard@,
                has_segments,
                stamped_part(*stamped),
                config.part_fingerprint@,
            ) is None,
            Err(message) => shard_refusal(
                shard@,
                has_segments,
                stamped_part(*stamped),
                config.part_fingerprint@,
            ) == Some(message@),
        },
{
    if !has_segments {
        return Err(
            text::cat2(shard, " has no segments directory; retarget runs on built shards"),
        );
    }
    let stamped = match stamped {
        Some(stamped) => stamped,
        None => {
            return Err(
                text::cat2(
                    shard,
                    " has no build fingerprint (.sb-build-fingerprint); retarget runs on shards produced by this tool's build phase. Re-run build, or (for a hand-staged artifact) retarget is not supported.",
                ),
            );
        },
    };
    if stamped.part.as_str().unicode_len() == 0 {
        return Err(
            text::cat2(
                shard,
                " has no routing fingerprint (built by an older tool version, or its build fingerprint is corrupt); retarget cannot verify the document does not change routing. Rebuild the shard with the current tool to retarget it, or assemble it directly without retargeting.",
            ),
        );
    }
    if !text::same(stamped.part.as_str(), config.part_fingerprint.as_str()) {
        return Err(
            text::cat6(
                shard,
                " was built with different routing than the document given to retarget:\n  built part fingerprint:    ",
                stamped.part.as_str(),
                "\n  retarget part fingerprint: ",
                config.part_fingerprint.as_str(),
                "\n\nRetarget only rewrites placement (cold/cached); it cannot change routing (shard_number, sharding_method, hash_ring_shard_scale, id column/format), which decides which point lands in which shard. A routing change needs a fresh scatter + plan + build. Re-run retarget with the build's document, changing only placement.",
            ),
        );
    }
    Ok(())
}

/// One sparse index file whose stated placement has to follow the recorded config.
#[derive(Debug)]
pub struct SparseIndexSync {
    /// The vector.
    pub name: String,
    pub memory: Option<Memory>,
    /// The line for the report.
    pub change: String,
}

/// The index files that do not state what is recorded, as vector names with the placement recorded
/// and the line on the change. A vector without an index file has nothing to follow.
pub open spec fn syncs_needed(
    sparse: Seq<(Seq<char>, SparseVectorDataConfig)>,
    files: Seq<(Seq<char>, Option<Memory>)>,
) -> Seq<(Seq<char>, Option<Memory>, Seq<char>)>
    decreases sparse.len(),
{
    if sparse.len() == 0 {
        Seq::empty()
    } else {
        let done = syncs_needed(sparse.drop_last(), files);
        let name = sparse.last().0;
        let recorded = sparse.last().1.index.memory;
        match names::value_of(files, name) {
            Some(stated) => if stated != recorded {
                done.push(
                    (
                        name,
                        recorded,
                        "sparse `"@ + name + "` index-file memory "@ + placement_text(stated)
                            + " -> "@ + placement_text(recorded),
                    ),
                )
            } else {
                done
            },
            None => done,
        }
    }
}

/// What the syncs hold.
pub open spec fn syncs_view(syncs: Seq<SparseIndexSync>) -> Seq<
    (Seq<char>, Option<Memory>, Seq<char>),
> {
    Seq::new(syncs.len(), |i: int| (syncs[i].name@, syncs[i].memory, syncs[i].change@))
}

/// Compute the rewrites that make each sparse index file agree with the recorded config, without
/// writing. `files` holds the placement that each existing file states.
pub fn plan_sparse_index_syncs(
    sparse: &NameMap<SparseVectorDataConfig>,
    files: &NameMap<Option<Memory>>,
) -> (syncs: Vec<SparseIndexSync>)
    ensures
        syncs_view(syncs@) == syncs_needed(sparse@, files@),
{
    let mut syncs: Vec<SparseIndexSync> = Vec::new();
    let mut i: usize = 0;
    assert(sparse@.take(0) =~= Seq::empty());
    assert(syncs_view(syncs@) =~= Seq::empty());
    while i < sparse.len()
        invariant
            i <= sparse@.len(),
            syncs_view(syncs@) == syncs_needed(sparse@.take(i as int), files@),
        decreases sparse@.len() - i,
    {
        assert(sparse@.take(i + 1).drop_last() =~= sparse@.take(i as int));
        let name = sparse.name_at(i);
        let recorded: Option<Memory> = sparse.value_at(i).index.memory;
        match files.get(name.as_str()) {
            Some(stated) => if *stated != recorded {
                let change = text::cat6(
                    "sparse `",
                    name.as_str(),
                    "` index-file memory ",
                    placement_string(*stated).as_str(),
                    " -> ",
                    placement_string(recorded).as_str(),
                );
                let ghost was = syncs_view(syncs@);
                let ghost said = change@;
                syncs.push(SparseIndexSync { name: name.clone(), memory: recorded, change });
                assert(syncs_view(syncs@) =~= was.push((name@, recorded, said)));
            },
            None => {},
        }
        i = i + 1;
    }
    assert(sparse@.take(sparse@.len() as int) =~= sparse@);
    syncs
}

/// A write that a retarget makes in a segment directory.
#[derive(Debug)]
pub enum SegmentWrite {
    /// The segment's recorded state.
    State,
    /// The stated placement in the index file of that sparse vector.
    IndexFile { name: String, memory: Option<Memory> },
}

/// What a write does.
pub enum WriteView {
    State,
    IndexFile(Seq<char>, Option<Memory>),
}

impl SegmentWrite {
    pub open spec fn view(self) -> WriteView {
        match self {
            SegmentWrite::State => WriteView::State,
            SegmentWrite::IndexFile { name, memory } => WriteView::IndexFile(name@, memory),
        }
    }
}

/// What a list of writes does.
pub open spec fn writes_view(writes: Seq<SegmentWrite>) -> Seq<WriteView> {
    Seq::new(writes.len(), |i: int| writes[i]@)
}

/// The writes that a segment needs, in order. The recorded state goes first: the serving cluster
/// decides by it whether to rebuild, so a crash between the writes leaves only an index file behind,
/// which the next run mends.
pub open spec fn writes_needed(
    changed: bool,
    dry_run: bool,
    syncs: Seq<(Seq<char>, Option<Memory>, Seq<char>)>,
) -> Seq<WriteView> {
    if dry_run || !changed {
        Seq::empty()
    } else {
        seq![WriteView::State] + Seq::new(
            syncs.len(),
            |i: int| WriteView::IndexFile(syncs[i].0, syncs[i].1),
        )
    }
}

/// The lines on the changes of one segment, index files last.
pub open spec fn segment_changes(
    targets: PlacementTargets,
    config: SegmentView,
    files: Seq<(Seq<char>, Option<Memory>)>,
) -> Seq<Seq<char>> {
    let syncs = syncs_needed(config_retargeted(targets, config).sparse, files);
    config_changes(targets, config) + Seq::new(syncs.len(), |i: int| syncs[i].2)
}

/// Lines with a label before each.
pub open spec fn labelled(label: Seq<char>, lines: Seq<Seq<char>>) -> Seq<Seq<char>> {
    Seq::new(lines.len(), |i: int| label + ": "@ + lines[i])
}

impl RetargetReport {
    /// A report on nothing.
    pub fn new() -> (report: Self)
        ensures
            report.shards == 0,
            report.segments_examined == 0,
            report.segments_rewritten == 0,
            report.changes@.len() == 0,
    {
        RetargetReport {
            shards: 0,
            segments_examined: 0,
            segments_rewritten: 0,
            changes: Vec::new(),
        }
    }
}

/// Retarget one segment: rewrite its recorded config, report what changed, and say what has to be
/// written. `files` holds the placement that each sparse index file states, `label` names the
/// segment in the report and `segment` its directory in a complaint. A refused segment stays as it
/// is.
pub fn retarget_segment(
    targets: &PlacementTargets,
    config: &mut SegmentConfig,
    files: &NameMap<Option<Memory>>,
    options: RetargetOptions,
    label: &str,
    segment: &str,
    report: &mut RetargetReport,
) -> (writes: Result<Vec<SegmentWrite>, String>)
    requires
        old(report).segments_examined < usize::MAX,
        old(report).segments_rewritten < usize::MAX,
    ensures
        final(report).shards == old(report).shards,
        final(report).segments_examined == old(report).segments_examined + 1,
        match writes {
            Ok(writes) => {
                let changes = segment_changes(*targets, old(config)@, files@);
                &&& config_refusal(*targets, old(config)@) is None
                &&& final(config)@ == config_retargeted(*targets, old(config)@)
                &&& writes_view(writes@) == writes_needed(
                    changes.len() > 0,
                    options.dry_run,
                    syncs_needed(final(config)@.sparse, files@),
                )
                &&& final(report).segments_rewritten == old(report).segments_rewritten + (
                if changes.len() > 0 {
                    1int
                } else {
                    0
                })
                &&& text::texts(final(report).changes@) == text::texts(old(report).changes@)
                    + labelled(label@, changes)
            },
            Err(message) => {
                &&& match config_refusal(*targets, old(config)@) {
                    Some(why) => message@ == "segment "@ + segment@ + ": "@ + why,
                    None => false,
                }
                &&& *final(config) == *old(config)
                &&& final(report).segments_rewritten == old(report).segments_rewritten
                &&& final(report).changes@ == old(report).changes@
            },
        },
{
    let ghost before = config@;
    report.segments_examined = report.segments_examined + 1;
    let mut changes = match retarget_config(targets, config) {
        Ok(changes) => changes,
        Err(why) => {
            return Err(text::cat4("segment ", segment, ": ", why.as_str()));
        },
    };
    let syncs = plan_sparse_index_syncs(&config.sparse_vector_data, files);
    let ghost needed = syncs_needed(config@.sparse, files@);
    let ghost told = text::texts(changes@);
    let mut i: usize = 0;
    while i < syncs.len()
        invariant
            i <= syncs.len(),
            syncs_view(syncs@) == needed,
            text::texts(changes@) == told + Seq::new(i as nat, |k: int| needed[k].2),
        decreases syncs.len() - i,
    {
        let ghost was = text::texts(changes@);
        changes.push(syncs[i].change.clone());
        assert(needed[i as int].2 == syncs@[i as int].change@);
        assert(text::texts(changes@) =~= was.push(needed[i as int].2));
        assert(text::texts(changes@) =~= told + Seq::new((i + 1) as nat, |k: int| needed[k].2));
        i = i + 1;
    }
    assert(needed.len() == syncs@.len());
    assert(text::texts(changes@) == segment_changes(*targets, before, files@));
    let mut writes: Vec<SegmentWrite> = Vec::new();
    if changes.len() == 0 {
        assert(writes_view(writes@) =~= Seq::empty());
        assert(labelled(label@, text::texts(changes@)) =~= Seq::empty());
        assert(text::texts(report.changes@) =~= text::texts(report.changes@) + labelled(
            label@,
            text::texts(changes@),
        ));
        return Ok(writes);
    }
    if !options.dry_run {
        writes.push(SegmentWrite::State);
        assert(writes_view(writes@) =~= seq![WriteView::State]);
        let mut i: usize = 0;
        while i < syncs.len()
            invariant
                i <= syncs.len(),
                syncs_view(syncs@) == needed,
                writes_view(writes@) == seq![WriteView::State] + Seq::new(
                    i as nat,
                    |k: int| WriteView::IndexFile(needed[k].0, needed[k].1),
                ),
            decreases syncs.len() - i,
        {
            let ghost was = writes_view(writes@);
            writes.push(
                SegmentWrite::IndexFile { name: syncs[i].name.clone(), memory: syncs[i].memory },
            );
            assert(needed[i as int].0 == syncs@[i as int].name@);
            assert(writes_view(writes@) =~= was.push(
                WriteView::IndexFile(needed[i as int].0, needed[i as int].1),
            ));
            assert(writes_view(writes@) =~= seq![WriteView::State] + Seq::new(
                (i + 1) as nat,
                |k: int| WriteView::IndexFile(needed[k].0, needed[k].1),
            ));
            i = i + 1;
        }
    }
    assert(writes_view(writes@) =~= writes_needed(true, options.dry_run, needed));
    report.segments_rewritten = report.segments_rewritten + 1;
    let ghost reported = text::texts(report.changes@);
    let ghost all = text::texts(changes@);
    let mut i: usize = 0;
    assert(reported + labelled(label@, all).take(0) =~= reported);
    while i < changes.len()
        invariant
            i <= changes.len(),
            all == text::texts(changes@),
            report.shards == old(report).shards,
            report.segments_examined == old(report).segments_examined + 1,
            report.segments_rewritten == old(report).segments_rewritten + 1,
            text::texts(report.changes@) == reported + labelled(label@, all).take(i as int),
        decreases changes.len() - i,
    {
        let ghost was = report.changes@;
        report.changes.push(text::cat3(label, ": ", changes[i].as_str()));
        assert(labelled(label@, all)[i as int] == label@ + ": "@ + changes@[i as int]@);
        assert(text::texts(report.changes@) =~= text::texts(was).push(
            labelled(label@, all)[i as int],
        ));
        assert(text::texts(report.changes@) =~= reported + labelled(label@, all).take(i + 1));
        i = i + 1;
    }
    assert(labelled(label@, all).take(all.len() as int) =~= labelled(label@, all));
    Ok(writes)
}

/// The fingerprints to stamp on a shard whose every segment was retargeted: the document's, so that
/// assembly under it is accepted. A dry run stamps nothing.
pub fn refreshed_fingerprint(config: &LoadedConfig, options: RetargetOptions) -> (stamp: Option<
    BuildFingerprint,
>)
    ensures
        match stamp {
            Some(stamp) => {
                &&& !options.dry_run
                &&& stamp.full@ == config.fingerprint@
                &&& stamp.part@ == config.part_fingerprint@
            },
            None => options.dry_run,
        },
{
    if options.dry_run {
        return None;
    }
    Some(
        BuildFingerprint {
            full: config.fingerprint.clone(),
            part: config.part_fingerprint.clone(),
        },
    )
}

/// A retargeted segment whose index files were rewritten too needs no further write.
pub proof fn retargeted_segments_need_no_write(
    targets: PlacementTargets,
    config: SegmentView,
    files: Seq<(Seq<char>, Option<Memory>)>,
)
    requires
        config_refusal(targets, config) is None,
        forall|i: int|
            0 <= i < config.sparse.len() ==> (match names::value_of(
                files,
                (#[trigger] config.sparse[i]).0,
            ) {
                Some(stated) => stated == config_retargeted(
                    targets,
                    config,
                ).sparse[i].1.index.memory,
                None => true,
            }),
    ensures
        segment_changes(targets, config_retargeted(targets, config), files).len() == 0,
{
    retargeting_is_idempotent(targets, config);
    let after = config_retargeted(targets, config);
    assert forall|i: int| 0 <= i < after.sparse.len() implies (match names::value_of(
        files,
        (#[trigger] after.sparse[i]).0,
    ) {
        Some(stated) => stated == after.sparse[i].1.index.memory,
        None => true,
    }) by {
        assert(config.sparse[i].0 == after.sparse[i].0);
    }
    lemma_no_syncs(after.sparse, files);
}

proof fn lemma_no_syncs(
    sparse: Seq<(Seq<char>, SparseVectorDataConfig)>,
    files: Seq<(Seq<char>, Option<Memory>)>,
)
    requires
        forall|i: int|
            0 <= i < sparse.len() ==> (match names::value_of(files, (#[trigger] sparse[i]).0) {
                Some(stated) => stated == sparse[i].1.index.memory,
                None => true,
            }),
    ensures
        syncs_needed(sparse, files).len() == 0,
    decreases sparse.len(),
{
    if sparse.len() > 0 {
        assert forall|i: int| 0 <= i < sparse.drop_last().len() implies (match names::value_of(
            files,
            (#[trigger] sparse.drop_last()[i]).0,
        ) {
            Some(stated) => stated == sparse.drop_last()[i].1.index.memory,
            None => true,
        }) by {
            assert(sparse.drop_last()[i] == sparse[i]);
        }
        lemma_no_syncs(sparse.drop_last(), files);
        assert(sparse.last() == sparse[sparse.len() - 1]);
    }
}

/// A segment as it stands on disk: the name it has in a report, its directory, its version, what it
/// records, and the placement that each of its sparse index files states.
pub struct SegmentOnDisk {
    pub label: Seq<char>,
    pub dir: Seq<char>,
    pub version: Option<u64>,
    pub config: SegmentView,
    pub files: Seq<(Seq<char>, Option<Memory>)>,
}

/// A shard as it stands on disk: its directory, whether that holds segments, the full fingerprint
/// and the routing that it is stamped with, and its segments.
pub struct ShardOnDisk {
    pub dir: Seq<char>,
    pub has_segments: bool,
    pub full: Seq<char>,
    pub part: Option<Seq<char>>,
    pub segments: Seq<SegmentOnDisk>,
}

impl SegmentOnDisk {
    /// Whether the tables of a segment list each name once, in order.
    pub open spec fn wf(self) -> bool {
        names::sorted_keys(self.config.sparse) && names::sorted_keys(self.files)
    }
}

/// Index files once the one of that vector states a placement.
pub open spec fn restated(
    files: Seq<(Seq<char>, Option<Memory>)>,
    name: Seq<char>,
    memory: Option<Memory>,
) -> Seq<(Seq<char>, Option<Memory>)> {
    Seq::new(
        files.len(),
        |i: int|
            if files[i].0 == name {
                (name, memory)
            } else {
                files[i]
            },
    )
}

/// A segment once some writes are done, in order; the state that is written is `retargeted`.
pub open spec fn all_written(
    segment: SegmentOnDisk,
    retargeted: SegmentView,
    writes: Seq<WriteView>,
) -> SegmentOnDisk
    decreases writes.len(),
{
    if writes.len() == 0 {
        segment
    } else {
        let so_far = all_written(segment, retargeted, writes.drop_last());
        match writes.last() {
            WriteView::State => SegmentOnDisk { config: retargeted, ..so_far },
            WriteView::IndexFile(name, memory) => SegmentOnDisk {
                files: restated(so_far.files, name, memory),
                ..so_far
            },
        }
    }
}

/// A segment once its writes are done.
pub open spec fn segment_after(
    targets: PlacementTargets,
    segment: SegmentOnDisk,
    dry_run: bool,
) -> SegmentOnDisk {
    let retargeted = config_retargeted(targets, segment.config);
    all_written(
        segment,
        retargeted,
        writes_needed(
            segment_changes(targets, segment.config, segment.files).len() > 0,
            dry_run,
            syncs_needed(retargeted.sparse, segment.files),
        ),
    )
}

/// What a run over some segments leaves of them, and what it reports: how many it has looked at and
/// rewritten, the lines on their changes, and why it stopped where it did.
pub struct SegmentsRun {
    pub segments: Seq<SegmentOnDisk>,
    pub examined: nat,
    pub rewritten: nat,
    pub changes: Seq<Seq<char>>,
    pub refusal: Option<Seq<char>>,
}

/// A run over the segments of a shard, one by one. The first that is refused ends it.
pub open spec fn run_segments(
    targets: PlacementTargets,
    segments: Seq<SegmentOnDisk>,
    dry_run: bool,
) -> SegmentsRun
    decreases segments.len(),
{
    if segments.len() == 0 {
        SegmentsRun {
            segments,
            examined: 0,
            rewritten: 0,
            changes: Seq::empty(),
            refusal: None,
        }
    } else {
        let first = segments[0];
        match config_refusal(targets, first.config) {
            Some(why) => SegmentsRun {
                segments,
                examined: 1,
                rewritten: 0,
                changes: Seq::empty(),
                refusal: Some("segment "@ + first.dir + ": "@ + why),
            },
            None => {
                let changes = segment_changes(targets, first.config, first.files);
                let rest = run_segments(targets, segments.skip(1), dry_run);
                SegmentsRun {
                    segments: seq![segment_after(targets, first, dry_run)] + rest.segments,
                    examined: 1 + rest.examined,
                    rewritten: rest.rewritten + (if changes.len() > 0 {
                        1nat
                    } else {
                        0
                    }),
                    changes: labelled(first.label, changes) + rest.changes,
                    refusal: rest.refusal,
                }
            },
        }
    }
}

/// What a run leaves of the shards, and what it reports.
pub struct ShardsRun {
    pub shards: Seq<ShardOnDisk>,
    pub examined: nat,
    pub rewritten: nat,
    pub changes: Seq<Seq<char>>,
    pub refusal: Option<Seq<char>>,
}

/// A run over the shards, one by one, under a document with these fingerprints. A shard is stamped
/// with them once every segment of it is done; a dry run stamps none. The first shard or segment that
/// is refused ends the run.
pub open spec fn run_shards(
    targets: PlacementTargets,
    full: Seq<char>,
    part: Seq<char>,
    shards: Seq<ShardOnDisk>,
    dry_run: bool,
) -> ShardsRun
    decreases shards.len(),
{
    if shards.len() == 0 {
        ShardsRun { shards, examined: 0, rewritten: 0, changes: Seq::empty(), refusal: None }
    } else {
        let first = shards[0];
        match shard_refusal(first.dir, first.has_segments, first.part, part) {
            Some(why) => ShardsRun {
                shards,
                examined: 0,
                rewritten: 0,
                changes: Seq::empty(),
                refusal: Some(why),
            },
            None => {
                let run = run_segments(targets, first.segments, dry_run);
                let moved = ShardOnDisk { segments: run.segments, ..first };
                if run.refusal is Some {
                    ShardsRun {
                        shards: seq![moved] + shards.skip(1),
                        examined: run.examined,
                        rewritten: run.rewritten,
                        changes: run.changes,
                        refusal: run.refusal,
                    }
                } else {
                    let rest = run_shards(targets, full, part, shards.skip(1), dry_run);
                    let done = if dry_run {
                        moved
                    } else {
                        ShardOnDisk { full, part: Some(part), ..moved }
                    };
                    ShardsRun {
                        shards: seq![done] + rest.shards,
                        examined: run.examined + rest.examined,
                        rewritten: run.rewritten + rest.rewritten,
                        changes: run.changes + rest.changes,
                        refusal: rest.refusal,
                    }
                }
            },
        }
    }
}

/// Index files once those that the syncs are about state what is recorded.
spec fn synced(
    files: Seq<(Seq<char>, Option<Memory>)>,
    syncs: Seq<(Seq<char>, Option<Memory>, Seq<char>)>,
) -> Seq<(Seq<char>, Option<Memory>)>
    decreases syncs.len(),
{
    if syncs.len() == 0 {
        files
    } else {
        restated(synced(files, syncs.drop_last()), syncs.last().0, syncs.last().1)
    }
}

proof fn lemma_all_written(
    segment: SegmentOnDisk,
    retargeted: SegmentView,
    syncs: Seq<(Seq<char>, Option<Memory>, Seq<char>)>,
)
    ensures
        all_written(segment, retargeted, writes_needed(true, false, syncs)) == (SegmentOnDisk {
            config: retargeted,
            files: synced(segment.files, syncs),
            ..segment
        }),
    decreases syncs.len(),
{
    let writes = writes_needed(true, false, syncs);
    if syncs.len() == 0 {
        assert(writes =~= seq![WriteView::State]);
        assert(all_written(segment, retargeted, writes.drop_last()) == segment);
    } else {
        let fewer = writes_needed(true, false, syncs.drop_last());
        assert(writes.drop_last() =~= fewer);
        assert(writes.last() == WriteView::IndexFile(syncs.last().0, syncs.last().1));
        lemma_all_written(segment, retargeted, syncs.drop_last());
    }
}

/// Once the index files are synced, each that a recorded vector has states what is recorded, and
/// every other is as it was.
proof fn lemma_synced(
    sparse: Seq<(Seq<char>, SparseVectorDataConfig)>,
    files: Seq<(Seq<char>, Option<Memory>)>,
)
    requires
        names::sorted_keys(sparse),
        names::sorted_keys(files),
    ensures
        ({
            let after = synced(files, syncs_needed(sparse, files));
            &&& after.len() == files.len()
            &&& forall|j: int|
                0 <= j < files.len() ==> (#[trigger] after[j]).0 == files[j].0 && (
                !names::has_key(sparse, files[j].0) ==> after[j] == files[j])
            &&& forall|i: int, j: int|
                0 <= i < sparse.len() && 0 <= j < files.len() && (#[trigger] sparse[i]).0
                    == files[j].0 ==> (#[trigger] after[j]).1 == sparse[i].1.index.memory
        }),
    decreases sparse.len(),
{
    if sparse.len() > 0 {
        let front = sparse.drop_last();
        let last = sparse.last();
        let before = synced(files, syncs_needed(front, files));
        let after = synced(files, syncs_needed(sparse, files));
        assert(names::sorted_keys(front)) by {
            assert(forall|i: int| 0 <= i < front.len() ==> #[trigger] front[i] == sparse[i]);
        }
        lemma_synced(front, files);
        assert(!names::has_key(front, last.0)) by {
            assert forall|i: int| 0 <= i < front.len() implies #[trigger] front[i].0 != last.0 by {
                assert(front[i] == sparse[i]);
                assert(text::text_lt(sparse[i].0, sparse[sparse.len() - 1].0));
                text::text_lt_trichotomy(sparse[i].0, last.0);
            }
        }
        let done = syncs_needed(front, files);
        let all = syncs_needed(sparse, files);
        if all.len() != done.len() {
            assert(all.drop_last() =~= done);
            assert(after == restated(before, last.0, last.1.index.memory));
        } else {
            assert(all == done);
        }
        assert forall|j: int| 0 <= j < files.len() implies (#[trigger] after[j]).0 == files[j].0
            && (!names::has_key(sparse, files[j].0) ==> after[j] == files[j]) by {
            assert(before[j].0 == files[j].0);
            if !names::has_key(sparse, files[j].0) {
                assert(sparse[sparse.len() - 1].0 != files[j].0);
                assert forall|i: int| 0 <= i < front.len() implies #[trigger] front[i].0
                    != files[j].0 by {
                    assert(front[i] == sparse[i]);
                }
            }
        }
        assert forall|i: int, j: int|
            0 <= i < sparse.len() && 0 <= j < files.len() && (#[trigger] sparse[i]).0
                == files[j].0 implies (#[trigger] after[j]).1 == sparse[i].1.index.memory by {
            assert(before[j].0 == files[j].0);
            if i == sparse.len() - 1 {
                names::lemma_value_at(files, j);
                assert(before[j] == files[j]);
            } else {
                assert(front[i] == sparse[i]);
                assert(names::has_key(front, files[j].0));
                assert(files[j].0 != last.0);
                assert(before[j].1 == front[i].1.index.memory);
            }
        }
    }
}

/// A segment that was accepted is accepted again once it is written, and nothing is left to change.
proof fn lemma_segment_is_done(targets: PlacementTargets, segment: SegmentOnDisk)
    requires
        segment.wf(),
        config_refusal(targets, segment.config) is None,
    ensures
        ({
            let after = segment_after(targets, segment, false);
            &&& after.label == segment.label
            &&& after.version == segment.version
            &&& config_refusal(targets, after.config) is None
            &&& segment_changes(targets, after.config, after.files).len() == 0
        }),
{
    let retargeted = config_retargeted(targets, segment.config);
    let syncs = syncs_needed(retargeted.sparse, segment.files);
    let after = segment_after(targets, segment, false);
    if segment_changes(targets, segment.config, segment.files).len() > 0 {
        lemma_all_written(segment, retargeted, syncs);
        let sparse = retargeted.sparse;
        assert(sparse.len() == segment.config.sparse.len());
        assert forall|i: int| 0 <= i < sparse.len() implies #[trigger] sparse[i].0
            == segment.config.sparse[i].0 by {}
        assert(names::sorted_keys(sparse));
        lemma_synced(sparse, segment.files);
        assert forall|i: int| 0 <= i < segment.config.sparse.len() implies (match names::value_of(
            after.files,
            (#[trigger] segment.config.sparse[i]).0,
        ) {
            Some(stated) => stated == retargeted.sparse[i].1.index.memory,
            None => true,
        }) by {
            let name = segment.config.sparse[i].0;
            if names::has_key(after.files, name) {
                let j = choose|j: int|
                    0 <= j < after.files.len() && #[trigger] after.files[j].0 == name;
                assert(after.files[j].0 == segment.files[j].0);
                assert(sparse[i].0 == segment.files[j].0);
                assert(after.files[j].1 == sparse[i].1.index.memory);
            }
        }
        retargeting_is_idempotent(targets, segment.config);
        retargeted_segments_need_no_write(targets, segment.config, after.files);
    }
}

/// Whether every segment of every shard is well-formed.
pub open spec fn shards_wf(shards: Seq<ShardOnDisk>) -> bool {
    forall|i: int, j: int|
        0 <= i < shards.len() && 0 <= j < shards[i].segments.len() ==> (
        #[trigger] shards[i].segments[j]).wf()
}

proof fn lemma_dry_segments(targets: PlacementTargets, segments: Seq<SegmentOnDisk>)
    ensures
        ({
            let dry = run_segments(targets, segments, true);
            let actual = run_segments(targets, segments, false);
            &&& dry.segments == segments
            &&& dry.examined == actual.examined
            &&& dry.rewritten == actual.rewritten
            &&& dry.changes == actual.changes
            &&& dry.refusal == actual.refusal
        }),
    decreases segments.len(),
{
    if segments.len() > 0 && config_refusal(targets, segments[0].config) is None {
        lemma_dry_segments(targets, segments.skip(1));
        assert(segments =~= seq![segments[0]] + segments.skip(1));
    }
}

/// A dry run writes nothing, and reports exactly what the run itself would: the same segments, the
/// same changes, and the same refusal.
pub proof fn a_dry_run_only_reports(
    targets: PlacementTargets,
    full: Seq<char>,
    part: Seq<char>,
    shards: Seq<ShardOnDisk>,
)
    ensures
        ({
            let dry = run_shards(targets, full, part, shards, true);
            let actual = run_shards(targets, full, part, shards, false);
            &&& dry.shards == shards
            &&& dry.examined == actual.examined
            &&& dry.rewritten == actual.rewritten
            &&& dry.changes == actual.changes
            &&& dry.refusal == actual.refusal
        }),
    decreases shards.len(),
{
    if shards.len() > 0 && shard_refusal(
        shards[0].dir,
        shards[0].has_segments,
        shards[0].part,
        part,
    ) is None {
        lemma_dry_segments(targets, shards[0].segments);
        a_dry_run_only_reports(targets, full, part, shards.skip(1));
        assert(shards =~= seq![shards[0]] + shards.skip(1));
    }
}

proof fn lemma_done_segments(targets: PlacementTargets, segments: Seq<SegmentOnDisk>, dry_run: bool)
    requires
        forall|j: int| 0 <= j < segments.len() ==> (#[trigger] segments[j]).wf(),
        run_segments(targets, segments, false).refusal is None,
    ensures
        ({
            let after = run_segments(targets, segments, false).segments;
            let again = run_segments(targets, after, dry_run);
            &&& again.segments == after
            &&& again.rewritten == 0
            &&& again.changes.len() == 0
            &&& again.refusal is None
        }),
    decreases segments.len(),
{
    if segments.len() > 0 {
        let rest = segments.skip(1);
        assert forall|j: int| 0 <= j < rest.len() implies (#[trigger] rest[j]).wf() by {
            assert(rest[j] == segments[j + 1]);
        }
        lemma_done_segments(targets, rest, dry_run);
        lemma_segment_is_done(targets, segments[0]);
        let first = segment_after(targets, segments[0], false);
        let after = run_segments(targets, segments, false).segments;
        let left = run_segments(targets, rest, false).segments;
        assert(after[0] == first);
        assert(after.skip(1) =~= left);
        assert(segment_after(targets, first, dry_run) == first);
        assert(labelled(
            first.label,
            segment_changes(targets, first.config, first.files),
        ).len() == 0);
        assert(seq![first] + left =~= after);
    }
}

/// A run that reached its end has stamped every shard with the document's fingerprints, and leaves
/// nothing to do: run again, it accepts every shard and every segment, rewrites none, reports no
/// change and leaves everything as it is.
pub proof fn a_finished_run_leaves_nothing_to_do(
    targets: PlacementTargets,
    full: Seq<char>,
    part: Seq<char>,
    shards: Seq<ShardOnDisk>,
    dry_run: bool,
)
    requires
        shards_wf(shards),
        run_shards(targets, full, part, shards, false).refusal is None,
    ensures
        ({
            let after = run_shards(targets, full, part, shards, false).shards;
            let again = run_shards(targets, full, part, after, dry_run);
            &&& after.len() == shards.len()
            &&& forall|i: int|
                0 <= i < after.len() ==> (#[trigger] after[i]).full == full && after[i].part
                    == Some(part)
            &&& again.shards == after
            &&& again.rewritten == 0
            &&& again.changes.len() == 0
            &&& again.refusal is None
        }),
    decreases shards.len(),
{
    if shards.len() > 0 {
        let first = shards[0];
        let rest = shards.skip(1);
        assert(shards_wf(rest)) by {
            assert forall|i: int, j: int|
                0 <= i < rest.len() && 0 <= j < rest[i].segments.len() implies (
            #[trigger] rest[i].segments[j]).wf() by {
                assert(rest[i] == shards[i + 1]);
                assert(shards[i + 1].segments[j].wf());
            }
        }
        assert forall|j: int| 0 <= j < first.segments.len() implies (
        #[trigger] first.segments[j]).wf() by {
            assert(shards[0].segments[j].wf());
        }
        a_finished_run_leaves_nothing_to_do(targets, full, part, rest, dry_run);
        lemma_done_segments(targets, first.segments, dry_run);
        let after = run_shards(targets, full, part, shards, false).shards;
        let left = run_shards(targets, full, part, rest, false).shards;
        let again = run_shards(targets, full, part, after, dry_run);
        assert(after.skip(1) =~= left);
        assert forall|i: int| 0 <= i < after.len() implies (#[trigger] after[i]).full == full
            && after[i].part == Some(part) by {
            if i > 0 {
                assert(after[i] == left[i - 1]);
            }
        }
        assert(again.shards =~= after);
    }
}

/// Whether a segment is as it was, or as it stands once all its writes are done, its version kept.
pub open spec fn whole(
    targets: PlacementTargets,
    before: SegmentOnDisk,
    after: SegmentOnDisk,
) -> bool {
    &&& after.version == before.version
    &&& after == before || config_refusal(targets, before.config) is None && after == segment_after(
        targets,
        before,
        false,
    )
}

/// Writes do not touch the version of a segment.
proof fn lemma_version_kept(
    segment: SegmentOnDisk,
    retargeted: SegmentView,
    writes: Seq<WriteView>,
)
    ensures
        all_written(segment, retargeted, writes).version == segment.version,
    decreases writes.len(),
{
    if writes.len() > 0 {
        lemma_version_kept(segment, retargeted, writes.drop_last());
    }
}

proof fn lemma_whole_segments(targets: PlacementTargets, segments: Seq<SegmentOnDisk>)
    ensures
        ({
            let after = run_segments(targets, segments, false).segments;
            &&& after.len() == segments.len()
            &&& forall|j: int|
                0 <= j < segments.len() ==> whole(targets, segments[j], #[trigger] after[j])
        }),
    decreases segments.len(),
{
    if segments.len() > 0 && config_refusal(targets, segments[0].config) is None {
        let rest = segments.skip(1);
        lemma_whole_segments(targets, rest);
        let first = segments[0];
        let retargeted = config_retargeted(targets, first.config);
        lemma_version_kept(
            first,
            retargeted,
            writes_needed(
                segment_changes(targets, first.config, first.files).len() > 0,
                false,
                syncs_needed(retargeted.sparse, first.files),
            ),
        );
        let after = run_segments(targets, segments, false).segments;
        let left = run_segments(targets, rest, false).segments;
        assert forall|j: int| 0 <= j < segments.len() implies whole(
            targets,
            segments[j],
            #[trigger] after[j],
        ) by {
            if j > 0 {
                assert(after[j] == left[j - 1]);
                assert(segments[j] == rest[j - 1]);
            }
        }
    }
}

/// However a run ends, every segment is left as it was or retargeted whole, with the version it had. A
/// shard that holds one that is refused keeps its stamp, and one that is itself refused, because its
/// routing is unknown or another, is not touched at all: what a refused run has written is valid by
/// itself and can be run again.
pub proof fn a_run_leaves_every_segment_whole(
    targets: PlacementTargets,
    full: Seq<char>,
    part: Seq<char>,
    shards: Seq<ShardOnDisk>,
)
    ensures
        ({
            let after = run_shards(targets, full, part, shards, false).shards;
            &&& after.len() == shards.len()
            &&& forall|i: int|
                0 <= i < shards.len() ==> (#[trigger] after[i]).segments.len()
                    == shards[i].segments.len()
            &&& forall|i: int, j: int|
                0 <= i < shards.len() && 0 <= j < shards[i].segments.len() ==> whole(
                    targets,
                    shards[i].segments[j],
                    #[trigger] after[i].segments[j],
                )
            &&& forall|i: int|
                0 <= i < shards.len() && run_segments(
                    targets,
                    shards[i].segments,
                    false,
                ).refusal is Some ==> (#[trigger] after[i]).full == shards[i].full && after[i].part
                    == shards[i].part
            &&& forall|i: int|
                0 <= i < shards.len() && shard_refusal(
                    shards[i].dir,
                    shards[i].has_segments,
                    shards[i].part,
                    part,
                ) is Some ==> #[trigger] after[i] == shards[i]
        }),
    decreases shards.len(),
{
    if shards.len() > 0 && shard_refusal(
        shards[0].dir,
        shards[0].has_segments,
        shards[0].part,
        part,
    ) is None {
        let rest = shards.skip(1);
        let after = run_shards(targets, full, part, shards, false).shards;
        let run = run_segments(targets, shards[0].segments, false);
        lemma_whole_segments(targets, shards[0].segments);
        a_run_leaves_every_segment_whole(targets, full, part, rest);
        let left = if run.refusal is Some {
            rest
        } else {
            run_shards(targets, full, part, rest, false).shards
        };
        assert(after.skip(1) =~= left);
        assert(after[0].segments == run.segments);
        assert forall|i: int| 0 < i < shards.len() implies #[trigger] after[i] == left[i - 1]
            && shards[i] == rest[i - 1] by {}
        assert forall|i: int, j: int|
            0 <= i < shards.len() && 0 <= j < shards[i].segments.len() implies whole(
            targets,
            shards[i].segments[j],
            #[trigger] after[i].segments[j],
        ) by {
            if i > 0 {
                assert(after[i] == left[i - 1]);
                assert(left[i - 1].segments[j] == after[i].segments[j]);
            }
        }
    }
}

/// A retarget that is not refused leaves the structure of every dense vector as it was recorded. The
/// graph keeps every parameter but the placement and the number of threads, which become the
/// document's, and a vector without a graph is given none. The storage stays in its file format: the
/// bytes are read lazily under a cold placement and fetched on load under any other, and a storage
/// outside the two formats, or in one file with no placement asked for, is left alone.
pub proof fn retargeting_moves_dense_placement_alone(
    targets: PlacementTargets,
    config: SegmentView,
    i: int,
)
    requires
        config_refusal(targets, config) is None,
        0 <= i < config.dense.len(),
    ensures
        ({
            let name = config.dense[i].0;
            let before = config.dense[i].1;
            let after = config_retargeted(targets, config).dense[i].1;
            let wanted = dense_wanted(targets, name);
            &&& config_retargeted(targets, config).dense.len() == config.dense.len()
            &&& config_retargeted(targets, config).dense[i].0 == name
            &&& names::has_key(targets.dense@, name)
            &&& after.size == before.size
            &&& before.size == wanted.plain.size
            &&& after.distance == before.distance
            &&& before.distance == wanted.plain.distance
            &&& after.datatype == before.datatype
            &&& before.datatype == wanted.plain.datatype
            &&& after.multivector == before.multivector
            &&& before.multivector == json_view(wanted.plain.multivector)
            &&& after.quantization == before.quantization
            &&& match (before.index, after.index) {
                (Indexes::Plain, Indexes::Plain) => after.quantization == json_view(
                    wanted.appendable_quantization,
                ),
                (Indexes::Hnsw(was), Indexes::Hnsw(is)) => {
                    &&& is.m == was.m
                    &&& is.ef_construct == was.ef_construct
                    &&& is.full_scan_threshold == was.full_scan_threshold
                    &&& is.payload_m == was.payload_m
                    &&& is.inline_storage == was.inline_storage
                    &&& is.placement == wanted.hnsw.placement
                    &&& is.on_disk == wanted.hnsw.on_disk
                    &&& is.memory == wanted.hnsw.memory
                    &&& is.max_indexing_threads == wanted.hnsw.max_indexing_threads
                    &&& after.quantization == json_view(wanted.quantization)
                },
                _ => false,
            }
            &&& match before.storage_type {
                VectorStorageType::Mmap | VectorStorageType::InRamMmap => {
                    &&& after.storage_type is Mmap || after.storage_type is InRamMmap
                    &&& wanted.placement is None ==> after.storage_type == before.storage_type
                    &&& wanted.placement is Some ==> (after.storage_type is Mmap
                        <==> wanted.placement == Some(Memory::Cold))
                    &&& wanted.placement is Some && after.storage_type is InRamMmap
                        ==> targets.single_file_mmap_vector_storage
                },
                VectorStorageType::ChunkedMmap | VectorStorageType::InRamChunkedMmap => {
                    &&& after.storage_type is ChunkedMmap || after.storage_type is InRamChunkedMmap
                    &&& after.storage_type is ChunkedMmap <==> wanted.placement == Some(
                        Memory::Cold,
                    )
                },
                VectorStorageType::Memory | VectorStorageType::Empty => after.storage_type
                    == before.storage_type,
            }
        }),
{
    lemma_no_refusal(targets, config.dense, 0, i);
    lemma_sets_match(targets, config);
}

/// A retarget that is not refused changes nothing of a sparse vector but the stated placement, which
/// becomes the document's; a built index stays held in memory exactly where the document pins it.
pub proof fn retargeting_moves_sparse_placement_alone(
    targets: PlacementTargets,
    config: SegmentView,
    i: int,
)
    requires
        config_refusal(targets, config) is None,
        0 <= i < config.sparse.len(),
    ensures
        ({
            let name = config.sparse[i].0;
            let before = config.sparse[i].1;
            let after = config_retargeted(targets, config).sparse[i].1;
            let wanted = sparse_wanted(targets, name);
            &&& config_retargeted(targets, config).sparse.len() == config.sparse.len()
            &&& config_retargeted(targets, config).sparse[i].0 == name
            &&& names::has_key(targets.sparse@, name)
            &&& after.storage_type == before.storage_type
            &&& before.storage_type == wanted.plain.storage_type
            &&& after.modifier == before.modifier
            &&& before.modifier == wanted.plain.modifier
            &&& after.index.datatype == before.index.datatype
            &&& before.index.datatype == wanted.plain.index.datatype
            &&& after.index.full_scan_threshold == before.index.full_scan_threshold
            &&& before.index.full_scan_threshold == wanted.plain.index.full_scan_threshold
            &&& after.index.wand_pruning == before.index.wand_pruning
            &&& after.index.wand_pruning is Some ==> before.index.index_type is MutableRam
                && after.index.wand_pruning == wanted.plain.index.wand_pruning
            &&& after.index.index_type == before.index.index_type
            &&& after.index.index_type !is MutableRam ==> (after.index.index_type is ImmutableRam
                <==> wanted.placement == Some(Memory::Pinned))
            &&& after.index.memory == wanted.raw_memory
        }),
{
    lemma_no_sparse_refusal(targets, config.sparse, 0, i);
    lemma_sets_match(targets, config);
}

/// Whether what is recorded of a dense vector and what a document wants of it agree in everything
/// that decides the bytes on disk, and the placement can be had in the file format that is there.
pub open spec fn same_dense_bytes(
    before: DenseView,
    wanted: DenseTarget,
    single_file: bool,
) -> bool {
    &&& before.size == wanted.plain.size
    &&& before.distance == wanted.plain.distance
    &&& before.datatype == wanted.plain.datatype
    &&& before.multivector == json_view(wanted.plain.multivector)
    &&& match before.index {
        Indexes::Plain => before.quantization == json_view(wanted.appendable_quantization),
        Indexes::Hnsw(was) => {
            &&& was.m == wanted.hnsw.m
            &&& was.ef_construct == wanted.hnsw.ef_construct
            &&& was.full_scan_threshold == wanted.hnsw.full_scan_threshold
            &&& was.payload_m == wanted.hnsw.payload_m
            &&& was.inline_storage == wanted.hnsw.inline_storage
            &&& before.quantization == json_view(wanted.quantization)
        },
    }
    &&& before.storage_type is Mmap || before.storage_type is InRamMmap ==> wanted.placement is None
        || wanted.placement == Some(Memory::Cold) || single_file
}

/// Whether what is recorded of a sparse vector and what a document wants of it agree in everything
/// that decides the bytes on disk.
pub open spec fn same_sparse_bytes(before: SparseVectorDataConfig, wanted: SparseTarget) -> bool {
    &&& before.storage_type == wanted.plain.storage_type
    &&& before.modifier == wanted.plain.modifier
    &&& before.index.datatype == wanted.plain.index.datatype
    &&& before.index.full_scan_threshold == wanted.plain.index.full_scan_threshold
    &&& match before.index.index_type {
        SparseIndexType::MutableRam => before.index.wand_pruning is None
            || before.index.wand_pruning == wanted.plain.index.wand_pruning,
        SparseIndexType::ImmutableRam => before.index.wand_pruning is None && wanted.placement
            == Some(Memory::Pinned),
        SparseIndexType::Mmap => before.index.wand_pruning is None && wanted.placement != Some(
            Memory::Pinned,
        ),
    }
}

/// A segment is retargeted exactly where it and the document have the same vectors, every parameter
/// that decides the bytes of a vector is the same in both, no storage would have to leave its file
/// format, and no built sparse index would have to change its structure.
pub proof fn only_structural_differences_are_refused(targets: PlacementTargets, config: SegmentView)
    ensures
        config_refusal(targets, config) is None <==> {
            &&& forall|name: Seq<char>| #[trigger]
                names::has_key(config.dense, name) <==> names::has_key(targets.dense@, name)
            &&& forall|name: Seq<char>| #[trigger]
                names::has_key(config.sparse, name) <==> names::has_key(targets.sparse@, name)
            &&& forall|i: int|
                0 <= i < config.dense.len() ==> same_dense_bytes(
                    (#[trigger] config.dense[i]).1,
                    dense_wanted(targets, config.dense[i].0),
                    targets.single_file_mmap_vector_storage,
                )
            &&& forall|i: int|
                0 <= i < config.sparse.len() ==> same_sparse_bytes(
                    (#[trigger] config.sparse[i]).1,
                    sparse_wanted(targets, config.sparse[i].0),
                )
        },
{
    names::lemma_same_names(config.dense, targets.dense@);
    names::lemma_same_names(config.sparse, targets.sparse@);
    assert forall|i: int| 0 <= i < config.dense.len() implies same_dense_bytes(
        (#[trigger] config.dense[i]).1,
        dense_wanted(targets, config.dense[i].0),
        targets.single_file_mmap_vector_storage,
    ) == (dense_refusal(
        config.dense[i].0,
        config.dense[i].1,
        dense_wanted(targets, config.dense[i].0),
        targets.single_file_mmap_vector_storage,
    ) is None) by {
        match dense_wanted(targets, config.dense[i].0).placement {
            None | Some(Memory::Cold) => {},
            Some(Memory::Cached) | Some(Memory::Pinned) => {},
        }
    }
    assert forall|i: int| 0 <= i < config.sparse.len() implies same_sparse_bytes(
        (#[trigger] config.sparse[i]).1,
        sparse_wanted(targets, config.sparse[i].0),
    ) == (sparse_refusal(
        config.sparse[i].0,
        config.sparse[i].1,
        sparse_wanted(targets, config.sparse[i].0),
    ) is None) by {}
    if config_refusal(targets, config) is None {
        assert forall|i: int| 0 <= i < config.dense.len() implies dense_refusal(
            (#[trigger] config.dense[i]).0,
            config.dense[i].1,
            dense_wanted(targets, config.dense[i].0),
            targets.single_file_mmap_vector_storage,
        ) is None by {
            lemma_no_refusal(targets, config.dense, 0, i);
        }
        assert forall|i: int| 0 <= i < config.sparse.len() implies sparse_refusal(
            (#[trigger] config.sparse[i]).0,
            config.sparse[i].1,
            sparse_wanted(targets, config.sparse[i].0),
        ) is None by {
            lemma_no_sparse_refusal(targets, config.sparse, 0, i);
        }
    } else if (forall|i: int|
        0 <= i < config.dense.len() ==> same_dense_bytes(
            (#[trigger] config.dense[i]).1,
            dense_wanted(targets, config.dense[i].0),
            targets.single_file_mmap_vector_storage,
        )) && (forall|i: int|
        0 <= i < config.sparse.len() ==> same_sparse_bytes(
            (#[trigger] config.sparse[i]).1,
            sparse_wanted(targets, config.sparse[i].0),
        )) {
        lemma_accepts(targets, config, 0);
    }
}

/// A line is reported exactly where the recorded config moves.
pub proof fn every_change_is_reported(targets: PlacementTargets, config: SegmentView)
    ensures
        config_changes(targets, config).len() == 0 <==> config_retargeted(targets, config)
            == config,
{
    let after = config_retargeted(targets, config);
    lemma_dense_lines(targets, config.dense);
    lemma_sparse_lines(targets, config.sparse);
    if config_changes(targets, config).len() == 0 {
        assert(after.dense =~= config.dense);
        assert(after.sparse =~= config.sparse);
    } else if after == config {
        assert forall|i: int| 0 <= i < config.dense.len() implies dense_retargeted(
            (#[trigger] config.dense[i]).1,
            dense_wanted(targets, config.dense[i].0),
        ) == config.dense[i].1 by {
            assert(after.dense[i] == config.dense[i]);
        }
        assert forall|i: int| 0 <= i < config.sparse.len() implies sparse_retargeted(
            (#[trigger] config.sparse[i]).1,
            sparse_wanted(targets, config.sparse[i].0),
        ) == config.sparse[i].1 by {
            assert(after.sparse[i] == config.sparse[i]);
        }
    }
}

proof fn lemma_dense_lines(targets: PlacementTargets, dense: Seq<(Seq<char>, DenseView)>)
    ensures
        all_dense_changes(targets, dense).len() == 0 <==> (forall|i: int|
            0 <= i < dense.len() ==> dense_retargeted(
                (#[trigger] dense[i]).1,
                dense_wanted(targets, dense[i].0),
            ) == dense[i].1),
    decreases dense.len(),
{
    if dense.len() > 0 {
        let rest = dense.drop_last();
        lemma_dense_lines(targets, rest);
        assert forall|i: int| 0 <= i < rest.len() implies #[trigger] rest[i] == dense[i] by {}
        assert(dense.last() == dense[dense.len() - 1]);
        if all_dense_changes(targets, dense).len() == 0 {
            assert forall|i: int| 0 <= i < dense.len() implies dense_retargeted(
                (#[trigger] dense[i]).1,
                dense_wanted(targets, dense[i].0),
            ) == dense[i].1 by {
                if i < rest.len() {
                    assert(rest[i] == dense[i]);
                }
            }
        }
    }
}

proof fn lemma_sparse_lines(
    targets: PlacementTargets,
    sparse: Seq<(Seq<char>, SparseVectorDataConfig)>,
)
    ensures
        all_sparse_changes(targets, sparse).len() == 0 <==> (forall|i: int|
            0 <= i < sparse.len() ==> sparse_retargeted(
                (#[trigger] sparse[i]).1,
                sparse_wanted(targets, sparse[i].0),
            ) == sparse[i].1),
    decreases sparse.len(),
{
    if sparse.len() > 0 {
        let rest = sparse.drop_last();
        lemma_sparse_lines(targets, rest);
        assert forall|i: int| 0 <= i < rest.len() implies #[trigger] rest[i] == sparse[i] by {}
        assert(sparse.last() == sparse[sparse.len() - 1]);
        if all_sparse_changes(targets, sparse).len() == 0 {
            assert forall|i: int| 0 <= i < sparse.len() implies sparse_retargeted(
                (#[trigger] sparse[i]).1,
                sparse_wanted(targets, sparse[i].0),
            ) == sparse[i].1 by {
                if i < rest.len() {
                    assert(rest[i] == sparse[i]);
                }
            }
        }
    }
}

/// A shard is retargeted exactly where it has segments and is stamped with the document's routing,
/// which an empty stamp never is.
pub proof fn only_shards_of_the_same_routing_are_retargeted(
    shard: Seq<char>,
    has_segments: bool,
    stamped: Option<BuildFingerprint>,
    part: Seq<char>,
)
    ensures
        shard_refusal(shard, has_segments, stamped_part(stamped), part) is None <==> has_segments
            && stamped is Some && stamped->0.part@ == part && part.len() > 0,
{
}

/// What a document wants of a vector is what it states of that vector, setting by setting.
pub proof fn a_target_is_what_the_document_states(
    plain: VectorDataConfig,
    config: DenseOptimizerConfig,
    sparse_plain: SparseVectorDataConfig,
    sparse_config: SparseOptimizerConfig,
)
    ensures
        dense_target(plain, config).plain == plain,
        dense_target(plain, config).placement == config.memory_placement,
        dense_target(plain, config).hnsw == config.hnsw_config,
        dense_target(plain, config).quantization == config.quantization_config,
        dense_target(plain, config).appendable_quantization == config.appendable_quantization,
        sparse_target(sparse_plain, sparse_config).plain == sparse_plain,
        sparse_target(sparse_plain, sparse_config).raw_memory == sparse_config.memory,
        sparse_target(sparse_plain, sparse_config).placement == sparse_config.memory_placement,
{
}

} // verus!
