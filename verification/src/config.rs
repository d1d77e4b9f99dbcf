//! The collection config that a build works from.
//!
//! A config is given twice over: as the raw document, which the gates read because an omitted field
//! can only be told from a stated one there, and as the parsed values that routing, planning and
//! building go by. Two fingerprints guard it. The full one covers everything that decides whether
//! the serving cluster rebuilds a segment; it freezes the config from planning on. The part
//! fingerprint covers routing alone; it decides whether an existing scatter can still be used.
use vstd::prelude::*;
use vstd::string::*;
use crate::delimited;
use crate::dense_codec::VectorStorageDatatype;
use crate::ids;
use crate::json;
use crate::json::Json;
use crate::names::NameMap;
use crate::parquet_source::{IdFormat, ParquetMapping};
use crate::payload_index;
use crate::payload_index::PayloadIndexSchema;
use crate::text;

verus! {

/// How points are assigned to shards.
#[derive(Debug, Clone, Copy, PartialEq, Eq, Structural)]
pub enum ShardingMethod {
    /// By the hash of the point id.
    Auto,
    /// By a shard key that the client states.
    Custom,
}

/// Where data sits once a segment is loaded.
#[derive(Debug, Clone, Copy, PartialEq, Eq, Structural)]
pub enum Memory {
    Cold,
    Cached,
    Pinned,
}

impl Memory {
    /// The name in a document.
    pub open spec fn name(self) -> Seq<char> {
        match self {
            Memory::Cold => "cold"@,
            Memory::Cached => "cached"@,
            Memory::Pinned => "pinned"@,
        }
    }

    /// The name in a document.
    pub fn document_name(self) -> (name: &'static str)
        ensures
            name@ == self.name(),
    {
        match self {
            Memory::Cold => "cold",
            Memory::Cached => "cached",
            Memory::Pinned => "pinned",
        }
    }
}

/// The parameters of an HNSW graph.
#[derive(Debug, Clone, Copy, PartialEq, Eq, Structural)]
pub struct HnswConfig {
    pub m: u64,
    pub ef_construct: u64,
    pub full_scan_threshold: u64,
    pub max_indexing_threads: u64,
    pub payload_m: Option<u64>,
    /// The deprecated spelling of the placement.
    pub on_disk: Option<bool>,
    /// The placement as stated.
    pub memory: Option<Memory>,
    /// The placement that the two resolve to.
    pub placement: Memory,
    pub inline_storage: Option<bool>,
}

/// The shape of one dense vector.
#[derive(Debug, Clone, Copy, PartialEq, Eq, Structural)]
pub struct VectorParams {
    pub size: u64,
    pub datatype: Option<VectorStorageDatatype>,
}

/// What the serving cluster's optimizers would make of one dense vector.
pub struct DenseResolution {
    /// The config of the plain segment, as it is serialized.
    pub plain: Json,
    /// Whether the placement asked for is on disk; `None` where none is asked for.
    pub storage_on_disk: Option<bool>,
    pub hnsw: Option<HnswConfig>,
    pub quantization: Option<Json>,
}

/// What the serving cluster's optimizers would make of one sparse vector.
pub struct SparseResolution {
    /// The config of the plain segment, as it is serialized.
    pub plain: Json,
    pub memory_placement: Option<Memory>,
}

/// A parsed collection config.
pub struct CollectionConfig {
    pub shard_number: u32,
    pub sharding_method: Option<ShardingMethod>,
    /// Virtual nodes per shard on the hash ring.
    pub hash_ring_shard_scale: u32,
    pub vectors: NameMap<VectorParams>,
    pub sparse_vectors: NameMap<()>,
    /// In KB.
    pub max_segment_size: Option<u64>,
    pub default_segment_number: u64,
    /// In KB, as resolved.
    pub indexing_threshold_kb: u64,
    /// In KB, as resolved.
    pub memmap_threshold_kb: u64,
    pub deferred_points_threshold_bytes: Option<u64>,
    pub payload_storage_on_disk: bool,
    pub dense_resolution: NameMap<DenseResolution>,
    pub sparse_resolution: NameMap<SparseResolution>,
}

/// A config that has passed every gate, with its fingerprints.
pub struct LoadedConfig {
    pub config: CollectionConfig,
    /// Over everything that decides whether a segment is rebuilt.
    pub fingerprint: String,
    /// Over routing alone.
    pub part_fingerprint: String,
}

/// The sharding method of a config; hashing the id is the default.
pub open spec fn sharding_of(method: Option<ShardingMethod>) -> ShardingMethod {
    match method {
        Some(m) => m,
        None => ShardingMethod::Auto,
    }
}

/// The segment size limit in bytes.
pub open spec fn segment_limit(config: CollectionConfig) -> Option<nat> {
    match config.max_segment_size {
        Some(kb) => Some((kb * 1024) as nat),
        None => None,
    }
}

/// Half of a size limit, rounded up.
pub open spec fn half_up(limit: nat) -> nat {
    (limit + 1) / 2
}

impl LoadedConfig {
    /// Whether the segment size limit can be counted in bytes.
    pub open spec fn size_fits(self) -> bool {
        match segment_limit(self.config) {
            Some(limit) => limit <= u64::MAX,
            None => true,
        }
    }

    pub fn shard_number(&self) -> (n: u32)
        ensures
            n == self.config.shard_number,
    {
        self.config.shard_number
    }

    pub fn sharding_method(&self) -> (method: ShardingMethod)
        ensures
            method == sharding_of(self.config.sharding_method),
    {
        sharding_method_of(&self.config)
    }

    /// Virtual nodes per shard on the hash ring.
    pub fn hash_ring_shard_scale(&self) -> (scale: u32)
        ensures
            scale == self.config.hash_ring_shard_scale,
    {
        self.config.hash_ring_shard_scale
    }

    /// The target ceiling for one segment, in bytes.
    pub fn max_segment_size_bytes(&self) -> (limit: Option<u64>)
        requires
            self.size_fits(),
        ensures
            match limit {
                Some(bytes) => segment_limit(self.config) == Some(bytes as nat),
                None => segment_limit(self.config) is None,
            },
    {
        match self.config.max_segment_size {
            Some(kb) => Some(kb * 1024),
            None => None,
        }
    }

    /// Smallest segment size that keeps the merge optimizer permanently idle: half the limit,
    /// because a merge needs two segments that fit under the limit together.
    pub fn merge_safe_min_segment_bytes(&self) -> (floor: Option<u64>)
        requires
            self.size_fits(),
        ensures
            match (floor, segment_limit(self.config)) {
                (Some(bytes), Some(limit)) => bytes == half_up(limit),
                (None, None) => true,
                _ => false,
            },
    {
        match self.max_segment_size_bytes() {
            Some(bytes) => Some(bytes / 2 + bytes % 2),
            None => None,
        }
    }

    /// The size band to aim for when planning segments: the floor and the ceiling.
    pub fn target_segment_band_bytes(&self) -> (band: Option<(u64, u64)>)
        requires
            self.size_fits(),
        ensures
            match (band, segment_limit(self.config)) {
                (Some((floor, ceiling)), Some(limit)) => floor == half_up(limit) && ceiling
                    == limit,
                (None, None) => true,
                _ => false,
            },
    {
        match (self.merge_safe_min_segment_bytes(), self.max_segment_size_bytes()) {
            (Some(floor), Some(ceiling)) => Some((floor, ceiling)),
            _ => None,
        }
    }
}

fn sharding_method_of(config: &CollectionConfig) -> (method: ShardingMethod)
    ensures
        method == sharding_of(config.sharding_method),
{
    match config.sharding_method {
        Some(method) => method,
        None => ShardingMethod::Auto,
    }
}

/// Whether two of the segments are together smaller than the threshold.
pub open spec fn some_pair_fits(sizes: Seq<u64>, threshold: nat) -> bool {
    exists|i: int, j: int|
        0 <= i < j < sizes.len() && #[trigger] sizes[i] + #[trigger] sizes[j] < threshold
}

/// Whether the merge optimizer would plan a merge.
///
/// It takes segments from the smallest up while their running total stays under the threshold, and
/// merges when it has taken at least two. So it merges exactly when the two smallest fit together.
pub fn merge_would_be_planned(sizes: &[u64], threshold: u64) -> (planned: bool)
    ensures
        planned == some_pair_fits(sizes@, threshold as nat),
{
    if sizes.len() < 2 {
        return false;
    }
    // The places of the smallest and of the smallest other segment.
    let (mut first, mut second): (usize, usize) = if sizes[0] <= sizes[1] {
        (0, 1)
    } else {
        (1, 0)
    };
    let mut i: usize = 2;
    while i < sizes.len()
        invariant
            2 <= i <= sizes.len(),
            first < i,
            second < i,
            first != second,
            sizes@[first as int] <= sizes@[second as int],
            forall|k: int|
                0 <= k < i && k != first ==> sizes@[second as int] <= #[trigger] sizes@[k],
        decreases sizes.len() - i,
    {
        if sizes[i] < sizes[first] {
            second = first;
            first = i;
        } else if sizes[i] < sizes[second] {
            second = i;
        }
        i = i + 1;
    }
    let planned: bool = (sizes[first] as u128) + (sizes[second] as u128) < threshold as u128;
    proof {
        if planned {
            if first < second {
                assert(sizes@[first as int] + sizes@[second as int] < threshold);
            } else {
                assert(sizes@[second as int] + sizes@[first as int] < threshold);
            }
        }
    }
    planned
}

/// Segments at or above the floor never pair, however many there are.
pub proof fn segments_at_the_floor_never_merge(sizes: Seq<u64>, limit: nat)
    requires
        forall|i: int| 0 <= i < sizes.len() ==> #[trigger] sizes[i] >= half_up(limit),
    ensures
        !some_pair_fits(sizes, limit),
{
}

/// Two segments below the floor do pair, whatever else the shard holds.
pub proof fn two_segments_below_the_floor_merge(sizes: Seq<u64>, limit: nat, i: int, j: int)
    requires
        0 <= i < j < sizes.len(),
        sizes[i] < half_up(limit),
        sizes[j] < half_up(limit),
    ensures
        some_pair_fits(sizes, limit),
{
}

/// The name of a sharding method in a fingerprint and in a report.
pub open spec fn sharding_text(method: ShardingMethod) -> Seq<char> {
    match method {
        ShardingMethod::Auto => "Auto"@,
        ShardingMethod::Custom => "Custom"@,
    }
}

/// The name of a sharding method in a fingerprint and in a report.
pub fn sharding_name(method: ShardingMethod) -> (name: &'static str)
    ensures
        name@ == sharding_text(method),
{
    match method {
        ShardingMethod::Auto => "Auto",
        ShardingMethod::Custom => "Custom",
    }
}

/// What routing depends on: the ring, and how point ids are read.
pub struct Routing {
    pub shard_number: u32,
    pub sharding_method: ShardingMethod,
    pub hash_ring_shard_scale: u32,
    /// The id column and its format; `None` for input that carries ids directly.
    pub id: Option<(Seq<char>, IdFormat)>,
}

/// What routing depends on in a config and a mapping.
pub open spec fn routing_of(config: CollectionConfig, mapping: Option<ParquetMapping>) -> Routing {
    Routing {
        shard_number: config.shard_number,
        sharding_method: sharding_of(config.sharding_method),
        hash_ring_shard_scale: config.hash_ring_shard_scale,
        id: match mapping {
            Some(m) => Some((m.id_column@, m.id_format)),
            None => None,
        },
    }
}

/// The text that the part fingerprint is taken over.
pub open spec fn part_surface(routing: Routing) -> Seq<char> {
    "{\"version\":3,\"shard_number\":"@ + text::decimal_text(routing.shard_number as nat)
        + ",\"sharding_method\":\""@ + sharding_text(routing.sharding_method)
        + "\",\"hash_ring_shard_scale\":"@ + text::decimal_text(
        routing.hash_ring_shard_scale as nat,
    ) + (match routing.id {
        Some((column, format)) => ",\"id_column\":"@ + json::quoted(column) + ",\"id_format\":\""@
            + format.name() + "\"}"@,
        None => ",\"id_column\":null,\"id_format\":null}"@,
    })
}

/// The fingerprint of a text: its SHA-256 digest in hexadecimal.
pub open spec fn fingerprint_of(surface: Seq<char>) -> Seq<char> {
    ids::hex_text(ids::sha256_digest(vstd::utf8::encode_utf8(surface)))
}

fn take_fingerprint(surface: &str) -> (fingerprint: String)
    ensures
        fingerprint@ == fingerprint_of(surface@),
        fingerprint@.len() == 64,
        ids::is_lower_hex(fingerprint@),
{
    let digest = ids::sha256(surface.as_bytes());
    proof {
        ids::hex_is_injective(digest@, digest@);
        ids::hex_is_lower_case(digest@);
    }
    ids::hex(digest.as_slice())
}

/// Hash only the config fields that a part file's contents depend on: routing.
///
/// `hnsw_config`, `quantization_config`, `max_segment_size` and the placements do not influence a
/// single byte of a part file, so hashing them here would mean scattering everything again to
/// change one of them. They are frozen one stage later, by the full fingerprint in a plan.
pub fn part_fingerprint(config: &CollectionConfig, mapping: Option<&ParquetMapping>) -> (
fingerprint: String)
    ensures
        fingerprint@ == fingerprint_of(
            part_surface(
                routing_of(
                    *config,
                    match mapping {
                        Some(m) => Some(*m),
                        None => None,
                    },
                ),
            ),
        ),
        fingerprint@.len() == 64,
        ids::is_lower_hex(fingerprint@),
{
    let mut surface = "{\"version\":3,\"shard_number\":".to_owned();
    surface.append(text::decimal(config.shard_number as u128).as_str());
    surface.append(",\"sharding_method\":\"");
    surface.append(sharding_name(sharding_method_of(config)));
    surface.append("\",\"hash_ring_shard_scale\":");
    surface.append(text::decimal(config.hash_ring_shard_scale as u128).as_str());
    let mut tail = String::new();
    match mapping {
        Some(mapping) => {
            tail = ",\"id_column\":".to_owned();
            tail.append(json::quote_text(mapping.id_column.as_str()).as_str());
            tail.append(",\"id_format\":\"");
            tail.append(mapping.id_format.display_name());
            tail.append("\"}");
        },
        None => {
            tail = ",\"id_column\":null,\"id_format\":null}".to_owned();
        },
    }
    surface.append(tail.as_str());
    take_fingerprint(surface.as_str())
}

/// The part fingerprint depends on routing alone: whatever else of a config is retuned, an
/// existing scatter stays usable.
pub proof fn part_fingerprint_is_routing_only(
    config: CollectionConfig,
    mapping: Option<ParquetMapping>,
    retuned: CollectionConfig,
    remapped: Option<ParquetMapping>,
)
    requires
        routing_of(config, mapping) == routing_of(retuned, remapped),
    ensures
        fingerprint_of(part_surface(routing_of(config, mapping))) == fingerprint_of(
            part_surface(routing_of(retuned, remapped)),
        ),
{
}

/// A number, or `null`.
pub open spec fn number_text(n: Option<u64>) -> Seq<char> {
    match n {
        Some(n) => text::decimal_text(n as nat),
        None => "null"@,
    }
}

fn number_or_null(n: Option<u64>) -> (text: String)
    ensures
        text@ == number_text(n),
{
    match n {
        Some(n) => text::decimal(n as u128),
        None => "null".to_owned(),
    }
}

/// A truth value.
pub open spec fn bool_text(b: bool) -> Seq<char> {
    if b {
        "true"@
    } else {
        "false"@
    }
}

fn bool_name(b: bool) -> (name: &'static str)
    ensures
        name@ == bool_text(b),
{
    if b {
        "true"
    } else {
        "false"
    }
}

/// A truth value, or `null`.
pub open spec fn flag_text(b: Option<bool>) -> Seq<char> {
    match b {
        Some(b) => bool_text(b),
        None => "null"@,
    }
}

fn flag_or_null(b: Option<bool>) -> (text: String)
    ensures
        text@ == flag_text(b),
{
    match b {
        Some(b) => bool_name(b).to_owned(),
        None => "null".to_owned(),
    }
}

/// The part of an HNSW config that decides whether a graph is rebuilt. The number of indexing
/// threads is none of it, and of the placement only what its spellings resolve to.
pub open spec fn hnsw_text(hnsw: HnswConfig) -> Seq<char> {
    "{\"m\":"@ + text::decimal_text(hnsw.m as nat) + ",\"ef_construct\":"@ + text::decimal_text(
        hnsw.ef_construct as nat,
    ) + ",\"full_scan_threshold\":"@ + text::decimal_text(hnsw.full_scan_threshold as nat)
        + ",\"payload_m\":"@ + number_text(hnsw.payload_m) + ",\"memory_placement\":\""@
        + hnsw.placement.name() + "\",\"inline_storage\":"@ + flag_text(hnsw.inline_storage)
        + "}"@
}

/// Writes the part of an HNSW config that decides whether a graph is rebuilt.
fn hashable_hnsw(hnsw: &HnswConfig) -> (text: String)
    ensures
        text@ == hnsw_text(*hnsw),
{
    let mut text = "{\"m\":".to_owned();
    text.append(text::decimal(hnsw.m as u128).as_str());
    text.append(",\"ef_construct\":");
    text.append(text::decimal(hnsw.ef_construct as u128).as_str());
    text.append(",\"full_scan_threshold\":");
    text.append(text::decimal(hnsw.full_scan_threshold as u128).as_str());
    text.append(",\"payload_m\":");
    text.append(number_or_null(hnsw.payload_m).as_str());
    text.append(",\"memory_placement\":\"");
    text.append(hnsw.placement.document_name());
    text.append("\",\"inline_storage\":");
    text.append(flag_or_null(hnsw.inline_storage).as_str());
    text.append("}");
    text
}

/// One dense vector in the text that the full fingerprint is taken over.
pub open spec fn dense_text(dense: DenseResolution) -> Seq<char> {
    "{\"plain\":"@ + json::json_text(dense.plain@) + ",\"storage_on_disk\":"@ + flag_text(
        dense.storage_on_disk,
    ) + ",\"hnsw\":"@ + (match dense.hnsw {
        Some(hnsw) => hnsw_text(hnsw),
        None => "null"@,
    }) + ",\"quantization\":"@ + (match dense.quantization {
        Some(quantization) => json::json_text(quantization@),
        None => "null"@,
    }) + "}"@
}

fn dense_entry(dense: &DenseResolution) -> (text: String)
    ensures
        text@ == dense_text(*dense),
{
    let mut text = "{\"plain\":".to_owned();
    text.append(dense.plain.to_text().as_str());
    text.append(",\"storage_on_disk\":");
    text.append(flag_or_null(dense.storage_on_disk).as_str());
    text.append(",\"hnsw\":");
    let hnsw = match &dense.hnsw {
        Some(hnsw) => hashable_hnsw(hnsw),
        None => "null".to_owned(),
    };
    text.append(hnsw.as_str());
    text.append(",\"quantization\":");
    let quantization = match &dense.quantization {
        Some(quantization) => quantization.to_text(),
        None => "null".to_owned(),
    };
    text.append(quantization.as_str());
    text.append("}");
    text
}

/// A plain sparse config without the placement as stated: what governs rebuilds is what the
/// placement resolves to.
pub open spec fn unplaced(plain: json::JsonValue) -> json::JsonValue {
    match plain {
        json::JsonValue::Object(members) => match json::member(members, "index"@) {
            Some(json::JsonValue::Object(index)) => json::JsonValue::Object(
                json::with_member(
                    members,
                    "index"@,
                    json::JsonValue::Object(json::without_member(index, "memory"@)),
                ),
            ),
            _ => plain,
        },
        _ => plain,
    }
}

fn drop_placement(plain: &Json) -> (rest: Json)
    ensures
        rest@ == unplaced(plain@),
{
    let members = match plain {
        Json::Object(members) => members,
        _ => {
            return plain.copy();
        },
    };
    let mut index = match plain.get("index") {
        Some(Json::Object(index)) => json::copy_members(index),
        _ => {
            return plain.copy();
        },
    };
    json::remove_member(&mut index, "memory");
    let mut rest = json::copy_members(members);
    json::put_member(&mut rest, "index", Json::Object(index));
    Json::Object(rest)
}

/// One sparse vector in the text that the full fingerprint is taken over.
pub open spec fn sparse_text(sparse: SparseResolution) -> Seq<char> {
    "{\"plain\":"@ + json::json_text(unplaced(sparse.plain@)) + ",\"memory_placement\":"@ + (
    match sparse.memory_placement {
        Some(memory) => "\""@ + memory.name() + "\""@,
        None => "null"@,
    }) + "}"@
}

fn sparse_entry(sparse: &SparseResolution) -> (text: String)
    ensures
        text@ == sparse_text(*sparse),
{
    let mut text = "{\"plain\":".to_owned();
    text.append(drop_placement(&sparse.plain).to_text().as_str());
    text.append(",\"memory_placement\":");
    let placement = match sparse.memory_placement {
        Some(memory) => {
            let mut quoted = "\"".to_owned();
            quoted.append(memory.document_name());
            quoted.append("\"");
            quoted
        },
        None => "null".to_owned(),
    };
    text.append(placement.as_str());
    text.append("}");
    text
}

fn member_entry(name: &str, value: &str) -> (text: String)
    ensures
        text@ == delimited::member_text(name@, value@),
{
    let mut text = json::quote_text(name);
    text.append(":");
    text.append(value);
    text
}

/// Members in braces.
pub open spec fn braced(members: Seq<Seq<char>>) -> Seq<char> {
    "{"@ + text::joined(members, ","@) + "}"@
}

fn in_braces(members: &Vec<String>) -> (text: String)
    ensures
        text@ == braced(text::texts(members@)),
{
    let mut text = "{".to_owned();
    text.append(text::join(members, ",").as_str());
    text.append("}");
    text
}

/// The dense vectors in the text that the full fingerprint is taken over.
pub open spec fn dense_surface(dense: Seq<(Seq<char>, DenseResolution)>) -> Seq<char> {
    braced(Seq::new(dense.len(), |i: int| delimited::member_text(dense[i].0, dense_text(dense[i].1))))
}

/// The sparse vectors in the text that the full fingerprint is taken over.
pub open spec fn sparse_surface(sparse: Seq<(Seq<char>, SparseResolution)>) -> Seq<char> {
    braced(Seq::new(sparse.len(), |i: int| delimited::member_text(sparse[i].0, sparse_text(sparse[i].1))))
}

/// The payload indexes in the text that the full fingerprint is taken over.
pub open spec fn index_surface(schema: Seq<(Seq<char>, payload_index::FieldSchema)>) -> Seq<char> {
    braced(
        Seq::new(
            schema.len(),
            |i: int|
                delimited::member_text(
                    schema[i].0,
                    json::json_text(payload_index::canonical_definition(schema[i].1)->0),
                ),
        ),
    )
}

fn write_dense(dense: &NameMap<DenseResolution>) -> (text: String)
    ensures
        text@ == dense_surface(dense@),
{
    let mut members: Vec<String> = Vec::new();
    let count: usize = dense.len();
    let mut i: usize = 0;
    while i < count
        invariant
            i <= count,
            count == dense@.len(),
            members@.len() == i,
            forall|k: int|
                0 <= k < i ==> (#[trigger] members@[k])@ == delimited::member_text(
                    dense@[k].0,
                    dense_text(dense@[k].1),
                ),
        decreases count - i,
    {
        let entry = dense_entry(dense.value_at(i));
        members.push(member_entry(dense.name_at(i).as_str(), entry.as_str()));
        i = i + 1;
    }
    assert(text::texts(members@) =~= Seq::new(
        dense@.len(),
        |i: int| delimited::member_text(dense@[i].0, dense_text(dense@[i].1)),
    ));
    in_braces(&members)
}

fn write_sparse(sparse: &NameMap<SparseResolution>) -> (text: String)
    ensures
        text@ == sparse_surface(sparse@),
{
    let mut members: Vec<String> = Vec::new();
    let count: usize = sparse.len();
    let mut i: usize = 0;
    while i < count
        invariant
            i <= count,
            count == sparse@.len(),
            members@.len() == i,
            forall|k: int|
                0 <= k < i ==> (#[trigger] members@[k])@ == delimited::member_text(
                    sparse@[k].0,
                    sparse_text(sparse@[k].1),
                ),
        decreases count - i,
    {
        let entry = sparse_entry(sparse.value_at(i));
        members.push(member_entry(sparse.name_at(i).as_str(), entry.as_str()));
        i = i + 1;
    }
    assert(text::texts(members@) =~= Seq::new(
        sparse@.len(),
        |i: int| delimited::member_text(sparse@[i].0, sparse_text(sparse@[i].1)),
    ));
    in_braces(&members)
}

fn write_indexes(schema: &PayloadIndexSchema) -> (text: Result<String, payload_index::NotAnObject>)
    ensures
        match text {
            Ok(t) => payload_index::first_odd_field(schema.schema@, 0) is None && t@
                == index_surface(schema.schema@),
            Err(err) => payload_index::first_odd_field(schema.schema@, 0) == Some(err.field@),
        },
{
    let fields = match schema.canonical_fields() {
        Ok(fields) => fields,
        Err(err) => {
            return Err(err);
        },
    };
    let mut members: Vec<String> = Vec::new();
    let count: usize = fields.len();
    let mut i: usize = 0;
    while i < count
        invariant
            i <= count,
            count == fields@.len(),
            payload_index::is_canonical(fields@, schema.schema@),
            members@.len() == i,
            forall|k: int|
                0 <= k < i ==> (#[trigger] members@[k])@ == delimited::member_text(
                    schema.schema@[k].0,
                    json::json_text(
                        payload_index::canonical_definition(schema.schema@[k].1)->0,
                    ),
                ),
        decreases count - i,
    {
        let entry = fields.value_at(i).to_text();
        assert(fields@[i as int].0 == schema.schema@[i as int].0);
        members.push(member_entry(fields.name_at(i).as_str(), entry.as_str()));
        i = i + 1;
    }
    assert(text::texts(members@) =~= Seq::new(
        schema.schema@.len(),
        |i: int|
            delimited::member_text(
                schema.schema@[i].0,
                json::json_text(payload_index::canonical_definition(schema.schema@[i].1)->0),
            ),
    ));
    Ok(in_braces(&members))
}

/// The text that the full fingerprint is taken over.
pub open spec fn full_surface(
    config: CollectionConfig,
    payload_index: Option<PayloadIndexSchema>,
) -> Seq<char> {
    "{\"version\":5,\"shard_number\":"@ + text::decimal_text(config.shard_number as nat)
        + ",\"sharding_method\":\""@ + sharding_text(sharding_of(config.sharding_method))
        + "\",\"hash_ring_shard_scale\":"@ + text::decimal_text(
        config.hash_ring_shard_scale as nat,
    ) + ",\"default_segment_number\":"@ + text::decimal_text(config.default_segment_number as nat)
        + ",\"max_segment_size_kb\":"@ + number_text(config.max_segment_size)
        + ",\"indexing_threshold_kb\":"@ + text::decimal_text(
        config.indexing_threshold_kb as nat,
    ) + ",\"memmap_threshold_kb\":"@ + text::decimal_text(config.memmap_threshold_kb as nat)
        + ",\"deferred_points_threshold_bytes\":"@ + number_text(
        config.deferred_points_threshold_bytes,
    ) + ",\"payload_storage_on_disk\":"@ + bool_text(config.payload_storage_on_disk)
        + ",\"payload_index\":"@ + (match payload_index {
        Some(schema) => index_surface(schema.schema@),
        None => "null"@,
    }) + ",\"dense_vectors\":"@ + dense_surface(config.dense_resolution@)
        + ",\"sparse_vectors\":"@ + sparse_surface(config.sparse_resolution@) + "}"@
}

/// The full fingerprint of a config without payload indexes.
pub(crate) fn fingerprint_alone(config: &CollectionConfig) -> (text: String)
    ensures
        text@ == fingerprint_of(full_surface(*config, None)),
        text@.len() == 64,
        ids::is_lower_hex(text@),
{
    match fingerprint(config, None) {
        Ok(text) => text,
        Err(_) => String::new(),
    }
}

/// Hash the config fields that decide whether the serving cluster rebuilds our segments, plus the
/// payload-index schema that a build bakes into them.
pub fn fingerprint(config: &CollectionConfig, payload_index: Option<&PayloadIndexSchema>) -> (
fingerprint: Result<String, payload_index::NotAnObject>)
    ensures
        match fingerprint {
            Ok(f) => {
                &&& f@ == fingerprint_of(
                    full_surface(
                        *config,
                        match payload_index {
                            Some(schema) => Some(*schema),
                            None => None,
                        },
                    ),
                )
                &&& f@.len() == 64
                &&& ids::is_lower_hex(f@)
                &&& match payload_index {
                    Some(schema) => payload_index::first_odd_field(schema.schema@, 0) is None,
                    None => true,
                }
            },
            Err(err) => match payload_index {
                Some(schema) => payload_index::first_odd_field(schema.schema@, 0) == Some(
                    err.field@,
                ),
                None => false,
            },
        },
{
    let indexes = match payload_index {
        Some(schema) => match write_indexes(schema) {
            Ok(text) => text,
            Err(err) => {
                return Err(err);
            },
        },
        None => "null".to_owned(),
    };
    let mut surface = "{\"version\":5,\"shard_number\":".to_owned();
    surface.append(text::decimal(config.shard_number as u128).as_str());
    surface.append(",\"sharding_method\":\"");
    surface.append(sharding_name(sharding_method_of(config)));
    surface.append("\",\"hash_ring_shard_scale\":");
    surface.append(text::decimal(config.hash_ring_shard_scale as u128).as_str());
    surface.append(",\"default_segment_number\":");
    surface.append(text::decimal(config.default_segment_number as u128).as_str());
    surface.append(",\"max_segment_size_kb\":");
    surface.append(number_or_null(config.max_segment_size).as_str());
    surface.append(",\"indexing_threshold_kb\":");
    surface.append(text::decimal(config.indexing_threshold_kb as u128).as_str());
    surface.append(",\"memmap_threshold_kb\":");
    surface.append(text::decimal(config.memmap_threshold_kb as u128).as_str());
    surface.append(",\"deferred_points_threshold_bytes\":");
    surface.append(number_or_null(config.deferred_points_threshold_bytes).as_str());
    surface.append(",\"payload_storage_on_disk\":");
    surface.append(bool_name(config.payload_storage_on_disk));
    surface.append(",\"payload_index\":");
    surface.append(indexes.as_str());
    surface.append(",\"dense_vectors\":");
    surface.append(write_dense(&config.dense_resolution).as_str());
    surface.append(",\"sparse_vectors\":");
    surface.append(write_sparse(&config.sparse_resolution).as_str());
    surface.append("}");
    Ok(take_fingerprint(surface.as_str()))
}

} // verus!
