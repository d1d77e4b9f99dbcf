//! Rewriting the recorded placements of built segments.
use shard_builder::building::BuildFingerprint;
use shard_builder::config::{
    part_fingerprint, CollectionConfig, HnswConfig, LoadedConfig, Memory, ShardingMethod, VectorParams,
};
use shard_builder::dense_codec::VectorStorageDatatype;
use shard_builder::json::Json;
use shard_builder::names::NameMap;
use shard_builder::retarget::{
    check_shard, plan_sparse_index_syncs, refreshed_fingerprint, retarget_config, retarget_segment,
    DenseOptimizerConfig, Distance, Indexes, PayloadStorageType, PlacementTargets, RetargetOptions,
    RetargetReport, SegmentConfig, SegmentOptimizerConfig, SegmentWrite, SparseIndexConfig,
    SparseIndexType, SparseOptimizerConfig, SparseVectorDataConfig, SparseVectorStorageType,
    VectorDataConfig, VectorStorageType,
};

/// A loaded config with the given dense vectors and one sparse vector.
fn loaded(vectors: &[(&str, u64, Option<VectorStorageDatatype>)], shards: u32) -> LoadedConfig {
    let mut dense = NameMap::new();
    for (name, size, datatype) in vectors {
        dense.insert(name.to_string(), VectorParams { size: *size, datatype: *datatype });
    }
    let mut sparse_vectors = NameMap::new();
    sparse_vectors.insert("sparse".to_string(), ());
    LoadedConfig {
        config: CollectionConfig {
            shard_number: shards,
            sharding_method: Some(ShardingMethod::Auto),
            hash_ring_shard_scale: 100,
            vectors: dense,
            sparse_vectors,
            max_segment_size: Some(5_000_000),
            default_segment_number: 8,
            indexing_threshold_kb: 10_000,
            memmap_threshold_kb: u64::MAX,
            deferred_points_threshold_bytes: None,
            payload_storage_on_disk: true,
            dense_resolution: NameMap::new(),
            sparse_resolution: NameMap::new(),
        },
        fingerprint: "f".repeat(64),
        part_fingerprint: "a".repeat(64),
    }
}

// ----- Documents and what the engine resolves them to -----

#[derive(Clone, Copy)]
struct Doc {
    dense: Option<Memory>,
    sparse: Option<Memory>,
    payload: Memory,
    hnsw: Option<Memory>,
    m: u64,
    bits: &'static str,
    quantization_memory: &'static str,
    has_sparse: bool,
}

/// Cold placements everywhere, and a graph that is left at its default.
fn cold() -> Doc {
    Doc {
        dense: Some(Memory::Cold),
        sparse: Some(Memory::Cold),
        payload: Memory::Cold,
        hnsw: None,
        m: 16,
        bits: "bits4",
        quantization_memory: "pinned",
        has_sparse: true,
    }
}

fn cached_everywhere() -> Doc {
    Doc {
        dense: Some(Memory::Cached),
        sparse: Some(Memory::Cached),
        payload: Memory::Cached,
        hnsw: Some(Memory::Cached),
        ..cold()
    }
}

fn one<T>(name: &str, value: T) -> NameMap<T> {
    let mut table = NameMap::new();
    table.insert(name.to_string(), value);
    table
}

fn hnsw(doc: Doc) -> HnswConfig {
    HnswConfig {
        m: doc.m,
        ef_construct: 128,
        full_scan_threshold: 10000,
        max_indexing_threads: 8,
        payload_m: None,
        on_disk: None,
        memory: doc.hnsw,
        placement: doc.hnsw.unwrap_or(Memory::Cached),
        inline_storage: None,
    }
}

fn quantization(doc: Doc) -> Json {
    let turbo = Json::Object(vec![
        ("memory".to_string(), Json::Text(doc.quantization_memory.to_string())),
        ("bits".to_string(), Json::Text(doc.bits.to_string())),
    ]);
    Json::Object(vec![("turbo".to_string(), turbo)])
}

fn on_disk(memory: Option<Memory>) -> bool {
    !matches!(memory, Some(Memory::Cached) | Some(Memory::Pinned))
}

fn plain_dense(doc: Doc) -> VectorDataConfig {
    VectorDataConfig {
        size: 768,
        distance: Distance::Cosine,
        storage_type: if on_disk(doc.dense) {
            VectorStorageType::ChunkedMmap
        } else {
            VectorStorageType::InRamChunkedMmap
        },
        index: Indexes::Plain,
        quantization: None,
        multivector: None,
        datatype: None,
    }
}

fn plain_sparse(doc: Doc) -> SparseVectorDataConfig {
    SparseVectorDataConfig {
        index: SparseIndexConfig {
            full_scan_threshold: None,
            index_type: SparseIndexType::MutableRam,
            datatype: None,
            memory: doc.sparse,
            wand_pruning: None,
        },
        storage_type: SparseVectorStorageType::Mmap,
        modifier: None,
    }
}

fn payload_storage(doc: Doc) -> PayloadStorageType {
    match doc.payload {
        Memory::Cold => PayloadStorageType::Mmap,
        _ => PayloadStorageType::InRamMmap,
    }
}

fn optimizer(doc: Doc) -> SegmentOptimizerConfig {
    let dense = DenseOptimizerConfig {
        memory_placement: doc.dense,
        hnsw_config: hnsw(doc),
        quantization_config: Some(quantization(doc)),
        appendable_quantization: None,
    };
    SegmentOptimizerConfig {
        payload_storage_type: payload_storage(doc),
        plain_dense_vector_config: one("dense", plain_dense(doc)),
        dense_vector: one("dense", dense),
        plain_sparse_vector_config: if doc.has_sparse {
            one("sparse", plain_sparse(doc))
        } else {
            NameMap::new()
        },
        sparse_vector: if doc.has_sparse {
            one(
                "sparse",
                SparseOptimizerConfig { memory: doc.sparse, memory_placement: doc.sparse },
            )
        } else {
            NameMap::new()
        },
        single_file_mmap_vector_storage: true,
    }
}

fn targets(doc: Doc) -> PlacementTargets {
    PlacementTargets::resolve(optimizer(doc))
}

/// The recorded config of a segment that is built under a document.
fn built_config(doc: Doc) -> SegmentConfig {
    let mut dense = plain_dense(doc);
    dense.index = Indexes::Hnsw(hnsw(doc));
    dense.quantization = Some(quantization(doc));
    dense.storage_type =
        if on_disk(doc.dense) { VectorStorageType::Mmap } else { VectorStorageType::InRamMmap };
    let mut sparse = plain_sparse(doc);
    sparse.index.index_type = match doc.sparse {
        Some(Memory::Pinned) => SparseIndexType::ImmutableRam,
        _ => SparseIndexType::Mmap,
    };
    SegmentConfig {
        vector_data: one("dense", dense),
        sparse_vector_data: one("sparse", sparse),
        payload_storage_type: payload_storage(doc),
    }
}

fn same_config(a: &SegmentConfig, b: &SegmentConfig) -> bool {
    let show = |config: &SegmentConfig| {
        let dense = config.vector_data.get("dense").unwrap();
        let sparse = config.sparse_vector_data.get("sparse").unwrap();
        format!(
            "{:?} {:?} {:?} {:?} {:?}",
            config.payload_storage_type,
            dense.storage_type,
            dense.index,
            dense.quantization.as_ref().map(|quantization| quantization.to_text()),
            sparse,
        )
    };
    show(a) == show(b)
}

fn refusal(doc: Doc) -> String {
    let mut config = built_config(cold());
    match retarget_config(&targets(doc), &mut config) {
        Ok(_) => panic!("should be refused"),
        Err(message) => message,
    }
}

// ----- One segment -----

#[test]
fn placement_flips_rewrite_every_surface() {
    let mut config = built_config(cold());
    let changes = retarget_config(&targets(cached_everywhere()), &mut config).unwrap();

    assert_eq!(
        config.payload_storage_type,
        PayloadStorageType::InRamMmap,
        "payload cached must become the in-RAM mmap form",
    );
    let dense = config.vector_data.get("dense").unwrap();
    assert_eq!(dense.storage_type, VectorStorageType::InRamMmap);
    match &dense.index {
        Indexes::Hnsw(hnsw) => assert_eq!(hnsw.memory, Some(Memory::Cached)),
        Indexes::Plain => panic!("index must stay HNSW"),
    }
    let sparse = config.sparse_vector_data.get("sparse").unwrap();
    assert_eq!(sparse.index.memory, Some(Memory::Cached));
    assert_eq!(
        sparse.index.index_type,
        SparseIndexType::Mmap,
        "cold -> cached must not change the sparse index structure",
    );

    assert_eq!(changes.len(), 4, "unexpected changes: {changes:?}");
    assert!(same_config(&config, &built_config(cached_everywhere())));
}

#[test]
fn retargeting_is_idempotent() {
    let mut config = built_config(cold());
    retarget_config(&targets(cached_everywhere()), &mut config).unwrap();
    let again = retarget_config(&targets(cached_everywhere()), &mut config).unwrap();
    assert!(again.is_empty(), "second pass changed {again:?}");
}

#[test]
fn an_unchanged_document_changes_nothing() {
    let mut config = built_config(cold());
    let changes = retarget_config(&targets(cold()), &mut config).unwrap();
    assert!(changes.is_empty(), "no-op retarget changed {changes:?}");
    assert!(same_config(&config, &built_config(cold())));
}

#[test]
fn structural_hnsw_changes_are_refused_by_name() {
    let err = refusal(Doc { m: 64, ..cold() });
    assert!(err.contains("hnsw_config.m"), "the refusal must name the field, got: {err}");
}

#[test]
fn a_sparse_pinned_flip_is_refused() {
    let err = refusal(Doc { sparse: Some(Memory::Pinned), ..cold() });
    assert!(err.contains("index structure"), "must explain the structural change, got: {err}");
}

#[test]
fn a_quantization_change_is_refused() {
    let err = refusal(Doc { quantization_memory: "cached", ..cold() });
    assert!(err.contains("quantization"), "got: {err}");
    let err = refusal(Doc { bits: "bits2", ..cold() });
    assert!(err.contains("quantization"), "got: {err}");
}

#[test]
fn a_missing_or_extra_vector_is_refused() {
    let err = refusal(Doc { has_sparse: false, ..cold() });
    assert!(err.contains("sparse vector `sparse`"), "got: {err}");

    let mut config = built_config(cold());
    config.sparse_vector_data = NameMap::new();
    match retarget_config(&targets(cold()), &mut config) {
        Ok(_) => panic!("the segment lacks the sparse vector"),
        Err(message) => assert!(message.contains("`sparse`"), "{message}"),
    }
}

#[test]
fn omitting_a_placement_leaves_the_recorded_storage_alone() {
    let mut config = built_config(cold());
    let before = config.vector_data.get("dense").unwrap().storage_type;
    retarget_config(&targets(Doc { dense: None, ..cold() }), &mut config).unwrap();
    assert_eq!(config.vector_data.get("dense").unwrap().storage_type, before);
}

#[test]
fn the_appendable_segment_family_is_rewritten_in_place() {
    let mut config = SegmentConfig {
        vector_data: one("dense", plain_dense(cold())),
        sparse_vector_data: one("sparse", plain_sparse(cold())),
        payload_storage_type: payload_storage(cold()),
    };
    retarget_config(&targets(cached_everywhere()), &mut config).unwrap();
    let dense = config.vector_data.get("dense").unwrap();
    assert_eq!(
        dense.storage_type,
        VectorStorageType::InRamChunkedMmap,
        "the flip must stay within the chunked family",
    );
    assert!(matches!(dense.index, Indexes::Plain), "an appendable segment must stay plain");
}

#[test]
fn an_in_ram_storage_needs_the_single_file_format() {
    let mut config = built_config(cold());
    let mut optimizer = optimizer(cached_everywhere());
    optimizer.single_file_mmap_vector_storage = false;
    let targets = PlacementTargets::resolve(optimizer);
    match retarget_config(&targets, &mut config) {
        Ok(_) => panic!("there is no in-RAM form of the single-file storage"),
        Err(message) => {
            assert!(message.contains("single_file_mmap_vector_storage"), "{message}");
        }
    }
    assert!(same_config(&config, &built_config(cold())), "a refusal leaves the config as it was");
}

// ----- One shard -----

fn stamped_config(full: &str, part: &str) -> LoadedConfig {
    let mut config = loaded(&[("dense", 768, None)], 4);
    config.fingerprint = full.to_string();
    config.part_fingerprint = part.to_string();
    config
}

fn stamp(full: &str, part: &str) -> Option<BuildFingerprint> {
    Some(BuildFingerprint { full: full.to_string(), part: part.to_string() })
}

fn segment_files() -> NameMap<Option<Memory>> {
    one("sparse", Some(Memory::Cold))
}

#[test]
fn run_rewrites_segment_state_files_and_dry_run_does_not() {
    let all = targets(cached_everywhere());

    let mut config = built_config(cold());
    let mut dry = RetargetReport::new();
    let writes = retarget_segment(
        &all, &mut config, &segment_files(), RetargetOptions { dry_run: true }, "shard_0", "s",
        &mut dry,
    )
    .unwrap_or_else(|message| panic!("{message}"));
    assert_eq!(dry.segments_rewritten, 1);
    assert!(writes.is_empty(), "dry run must not write");

    let mut config = built_config(cold());
    let mut wet = RetargetReport::new();
    let writes = retarget_segment(
        &all, &mut config, &segment_files(), RetargetOptions { dry_run: false }, "shard_0", "s",
        &mut wet,
    )
    .unwrap_or_else(|message| panic!("{message}"));
    assert_eq!(wet.segments_examined, 1);
    assert_eq!(wet.segments_rewritten, 1);
    assert!(!wet.changes.is_empty());
    assert!(writes.iter().any(|write| matches!(write, SegmentWrite::State)));
    assert!(writes.iter().any(|write| matches!(
        write,
        SegmentWrite::IndexFile { name, memory: Some(Memory::Cached) } if name == "sparse"
    )));
    assert!(same_config(&config, &built_config(cached_everywhere())));

    let mut noop = RetargetReport::new();
    let synced = one("sparse", Some(Memory::Cached));
    let writes = retarget_segment(
        &all, &mut config, &synced, RetargetOptions { dry_run: false }, "shard_0", "s", &mut noop,
    )
    .unwrap_or_else(|message| panic!("{message}"));
    assert_eq!(noop.segments_rewritten, 0, "retarget must be idempotent");
    assert!(writes.is_empty());
}

/// A state that was rewritten before an interruption still has its index file synced.
#[test]
fn an_index_file_that_lags_behind_is_synced() {
    let mut config = built_config(cached_everywhere());
    let mut report = RetargetReport::new();
    let writes = retarget_segment(
        &targets(cached_everywhere()), &mut config, &segment_files(),
        RetargetOptions { dry_run: false }, "shard_0", "s", &mut report,
    )
    .unwrap_or_else(|message| panic!("{message}"));
    assert_eq!(writes.len(), 2);
    assert!(matches!(&writes[0], SegmentWrite::State), "the state is written first");
    assert!(matches!(&writes[1], SegmentWrite::IndexFile { name, .. } if name == "sparse"));
    let syncs = plan_sparse_index_syncs(&config.sparse_vector_data, &segment_files());
    assert_eq!(syncs.len(), 1);
    assert_eq!(syncs[0].memory, Some(Memory::Cached));
}

#[test]
fn run_refreshes_the_full_fingerprint_and_preserves_part() {
    let retuned = stamped_config("new", "part");
    check_shard("shard_0", true, &stamp("old", "part"), &retuned).unwrap();
    match refreshed_fingerprint(&retuned, RetargetOptions { dry_run: false }) {
        Some(stamped) => {
            assert_eq!(stamped.full, "new", "full must be refreshed to the new document");
            assert_eq!(stamped.part, "part", "part (routing) must be preserved");
        }
        None => panic!("the stamp must be refreshed"),
    }
}

#[test]
fn dry_run_does_not_refresh_the_fingerprint() {
    let retuned = stamped_config("new", "part");
    assert!(
        refreshed_fingerprint(&retuned, RetargetOptions { dry_run: true }).is_none(),
        "dry run must leave the stamped fingerprint untouched",
    );
}

#[test]
fn a_routing_change_is_refused() {
    let built = loaded(&[("dense", 768, None)], 4);
    let mut rerouted = loaded(&[("dense", 768, None)], 4);
    rerouted.config.hash_ring_shard_scale = 37;
    rerouted.part_fingerprint = part_fingerprint(&rerouted.config, None);
    let built_part = part_fingerprint(&built.config, None);
    assert_ne!(
        built_part, rerouted.part_fingerprint,
        "a ring-scale change must move the routing fingerprint",
    );
    let err = check_shard("shard_0", true, &stamp("old", &built_part), &rerouted).unwrap_err();
    assert!(err.contains("different routing"), "the refusal must name routing, got: {err}");
}

/// The optimizer config may say something of vectors that the document does not list.
#[test]
fn targets_are_those_of_the_listed_vectors() {
    let mut wider = optimizer(cached_everywhere());
    for extra in ["a", "z"] {
        wider.dense_vector.insert(
            extra.to_string(),
            DenseOptimizerConfig {
                memory_placement: None,
                hnsw_config: hnsw(cold()),
                quantization_config: None,
                appendable_quantization: None,
            },
        );
        wider.sparse_vector.insert(
            extra.to_string(),
            SparseOptimizerConfig { memory: None, memory_placement: None },
        );
    }
    let wider = PlacementTargets::resolve(wider);
    let plain = targets(cached_everywhere());
    assert_eq!(wider.dense.names(), plain.dense.names());
    assert_eq!(wider.sparse.names(), plain.sparse.names());
    let (one, other) = (wider.dense.get("dense").unwrap(), plain.dense.get("dense").unwrap());
    assert_eq!(one.placement, other.placement);
    assert_eq!(one.hnsw, other.hnsw);
    assert_eq!(wider.sparse.get("sparse"), plain.sparse.get("sparse"));
    let mut config = built_config(cold());
    assert!(retarget_config(&wider, &mut config).is_ok());
    assert!(same_config(&config, &built_config(cached_everywhere())));
}

#[test]
fn a_legacy_fingerprint_without_routing_is_refused() {
    let retuned = stamped_config("new", "part");
    let legacy = Some(BuildFingerprint::parse("old", None));
    let err = check_shard("shard_0", true, &legacy, &retuned).unwrap_err();
    assert!(err.contains("no routing fingerprint"), "got: {err}");
}

#[test]
fn a_missing_build_fingerprint_is_refused() {
    let retuned = stamped_config("new", "part");
    let err = check_shard("shard_0", true, &None, &retuned).unwrap_err();
    assert!(err.contains("no build fingerprint"), "got: {err}");
    assert!(check_shard("shard_0", false, &stamp("old", "part"), &retuned).is_err());
}

/// A run over some segments, whose writes are done to them: what it reports, and why it is refused.
fn run_over(
    segments: &mut [(SegmentConfig, NameMap<Option<Memory>>)],
    doc: Doc,
    dry_run: bool,
) -> (RetargetReport, Option<String>) {
    let all = targets(doc);
    let mut report = RetargetReport::new();
    for (i, (config, files)) in segments.iter_mut().enumerate() {
        let label = format!("shard_0/{i}");
        let options = RetargetOptions { dry_run };
        let writes =
            match retarget_segment(&all, config, files, options, &label, "s", &mut report) {
                Ok(writes) => writes,
                Err(message) => return (report, Some(message)),
            };
        assert!(!dry_run || writes.is_empty(), "dry run must not write");
        for write in writes {
            if let SegmentWrite::IndexFile { name, memory } = write {
                files.insert(name, memory);
            }
        }
    }
    (report, None)
}

/// A dry run reports what the run itself does, and a run after it finds nothing left to do.
#[test]
fn a_finished_run_leaves_nothing_to_do() {
    let built = || {
        vec![(built_config(cold()), segment_files()), (built_config(cold()), NameMap::new())]
    };
    let (dry, refused) = run_over(&mut built(), cached_everywhere(), true);
    assert!(refused.is_none());
    let mut segments = built();
    let (wet, refused) = run_over(&mut segments, cached_everywhere(), false);
    assert!(refused.is_none());
    assert_eq!((dry.segments_examined, dry.segments_rewritten), (2, 2));
    assert_eq!((wet.segments_examined, wet.segments_rewritten), (2, 2));
    assert_eq!(dry.changes, wet.changes);
    for (config, _) in &segments {
        assert!(same_config(config, &built_config(cached_everywhere())));
    }
    let (again, refused) = run_over(&mut segments, cached_everywhere(), false);
    assert!(refused.is_none());
    assert_eq!((again.segments_examined, again.segments_rewritten), (2, 0));
    assert!(again.changes.is_empty());
}

/// A run that is refused midway leaves what came before retargeted and the rest as it was.
#[test]
fn a_refused_run_leaves_every_segment_whole() {
    let odd = Doc { m: 32, ..cold() };
    let mut segments = vec![
        (built_config(cold()), segment_files()),
        (built_config(odd), segment_files()),
        (built_config(cold()), segment_files()),
    ];
    let (report, refused) = run_over(&mut segments, cached_everywhere(), false);
    assert!(refused.is_some());
    assert_eq!((report.segments_examined, report.segments_rewritten), (2, 1));
    assert!(same_config(&segments[0].0, &built_config(cached_everywhere())));
    assert!(same_config(&segments[1].0, &built_config(odd)));
    assert!(same_config(&segments[2].0, &built_config(cold())));
}
