//! Assembling built segments into restorable shards.
use shard_builder::assemble::{
    appendable_segment_count, assemble_shard, discover_shards, ensure_appendable_segment,
    segment_versions, verify_assembled, verify_complete, verify_segment_indexes, wal_options,
    Assembly, BuiltSegment, DirEntry, FoundIndex, ShardContents,
};
use shard_builder::building::BuildFingerprint;
use shard_builder::config::{
    CollectionConfig, LoadedConfig, Memory, ShardingMethod, VectorParams,
};
use shard_builder::dense_codec::VectorStorageDatatype;
use shard_builder::ids::uuid_name;
use shard_builder::json::Json;
use shard_builder::names::NameMap;
use shard_builder::payload_index::{FieldSchema, PayloadIndexSchema};

/// A loaded config with the given dense vectors and one sparse vector.
fn loaded(vectors: &[(&str, u64, Option<VectorStorageDatatype>)], shards: u32) -> LoadedConfig {
    let mut dense = NameMap::new();
    for (name, size, datatype) in vectors {
        dense.insert(name.to_string(), VectorParams { size: *size, datatype: *datatype });
    }
    let mut sparse_vectors = NameMap::new();
    sparse_vectors.insert("sparse".to_string(), ());
    LoadedConfig {
        config: CollectionConfig {
            shard_number: shards,
            sharding_method: Some(ShardingMethod::Auto),
            hash_ring_shard_scale: 100,
            vectors: dense,
            sparse_vectors,
            max_segment_size: Some(5_000_000),
            default_segment_number: 8,
            indexing_threshold_kb: 10_000,
            memmap_threshold_kb: u64::MAX,
            deferred_points_threshold_bytes: None,
            payload_storage_on_disk: true,
            dense_resolution: NameMap::new(),
            sparse_resolution: NameMap::new(),
        },
        fingerprint: "f".repeat(64),
        part_fingerprint: "a".repeat(64),
    }
}

fn loaded_config() -> LoadedConfig {
    loaded(&[("dense", 768, None)], 4)
}

fn segment(index: usize, version: Option<u64>) -> BuiltSegment {
    BuiltSegment {
        name: uuid_name(0x0aa5ab5f_0000_4000_8000_000000000000 + index as u128),
        version,
        appendable: true,
        indexed_fields: NameMap::new(),
    }
}

fn segments(versions: &[Option<u64>]) -> Vec<BuiltSegment> {
    versions.iter().enumerate().map(|(index, version)| segment(index, *version)).collect()
}

fn shard_with(segments: Option<Vec<BuiltSegment>>, stamped: Option<&str>) -> ShardContents {
    ShardContents {
        path: "out/shard_0".to_string(),
        segments_path: "out/shard_0/segments".to_string(),
        segments,
        stamped: stamped
            .map(|full| BuildFingerprint { full: full.to_string(), part: "a".repeat(64) }),
    }
}

fn shard(versions: &[Option<u64>]) -> ShardContents {
    shard_with(Some(segments(versions)), Some(&"f".repeat(64)))
}

fn assemble(shard: &ShardContents) -> Assembly {
    match assemble_shard(&loaded_config(), shard, 0, None) {
        Ok(assembly) => assembly,
        Err(message) => panic!("{message}"),
    }
}

fn refusal(config: &LoadedConfig, shard: &ShardContents) -> String {
    match assemble_shard(config, shard, 0, None) {
        Ok(_) => panic!("should be refused"),
        Err(message) => message,
    }
}

const FILES: [&str; 6] = [
    "wal", "segments", "applied_seq.json", "payload_index.json", "replica_state.json",
    "shard_config.json",
];

fn present(names: &[&str]) -> Vec<String> {
    names.iter().map(|name| name.to_string()).collect()
}

#[test]
fn assembles_a_complete_shard() {
    let versions = [Some(3), Some(7), Some(5)];
    let report = assemble(&shard(&versions)).report;
    assert_eq!(report.segments, 3);
    assert_eq!(report.max_segment_version, 7);
    assert_eq!(report.wal_base, 8);
    verify_assembled(&segments(&versions), report.wal_base, report.max_segment_version)
        .expect("assembled shard must verify");
    verify_complete("out/shard_0", &present(&FILES)).unwrap();
}

#[test]
fn wal_base_is_above_every_segment_version() {
    let report = assemble(&shard(&[Some(1), Some(42), Some(9)])).report;
    assert!(
        report.wal_base > 42,
        "the WAL must not hand out an op number a segment would skip",
    );
}

#[test]
fn applied_seq_does_not_exceed_the_wal_last_index() {
    let assembly = assemble(&shard(&[Some(11)]));
    let Some(Json::Unsigned(applied)) = assembly.applied_seq.get("op_num") else {
        panic!("the applied sequence number is recorded");
    };
    assert!(*applied <= assembly.report.wal_base);
    assert_eq!(*applied, 11);
}

#[test]
fn shard_config_records_the_ring_scale() {
    let mut config = loaded_config();
    config.config.hash_ring_shard_scale = 500;
    match assemble_shard(&config, &shard(&[Some(1)]), 0, None) {
        Ok(assembly) => assert_eq!(assembly.ring_scale, 500),
        Err(message) => panic!("{message}"),
    }
}

#[test]
fn rejects_a_document_that_differs_from_the_build() {
    let mut drifted = loaded_config();
    drifted.fingerprint = "e".repeat(64);
    let err = refusal(&drifted, &shard(&[Some(1)]));
    assert!(err.contains("different document"), "the mismatch must be refused, got: {err}");
}

#[test]
fn rejects_a_shard_without_a_build_fingerprint() {
    let err = refusal(&loaded_config(), &shard_with(Some(segments(&[Some(1)])), None));
    assert!(err.contains("no build fingerprint"), "an unstamped shard must be refused: {err}");
}

#[test]
fn replica_state_marks_the_shard_local() {
    let state = assemble(&shard(&[Some(1)])).replica_state;
    assert!(
        state.get("is_local").unwrap().same(&Json::Bool(true)),
        "restore will not install data for a non-local replica",
    );
}

#[test]
fn tolerates_a_versionless_segment_alongside_real_ones() {
    let versions = [Some(2), None, Some(6)];
    let report = assemble(&shard(&versions)).report;
    assert_eq!(report.max_segment_version, 6);
    assert_eq!(report.wal_base, 7);
    assert_eq!(report.segments, 3);
    verify_assembled(&segments(&versions), report.wal_base, report.max_segment_version).unwrap();
}

#[test]
fn rejects_a_shard_where_no_segment_has_points() {
    let err = refusal(&loaded_config(), &shard(&[None, None]));
    assert!(err.contains("contains no segments"), "{err}");
}

#[test]
fn rejects_a_non_uuid_segment_directory() {
    let mut stray = segment(0, Some(1));
    stray.name = "not-a-uuid".to_string();
    let err =
        refusal(&loaded_config(), &shard_with(Some(vec![stray]), Some(&"f".repeat(64))));
    assert!(err.contains("is not a UUID"), "{err}");
}

#[test]
fn rejects_a_shard_with_no_segments() {
    let err = refusal(&loaded_config(), &shard(&[]));
    assert!(err.contains("contains no segments"), "{err}");
    let err = refusal(&loaded_config(), &shard_with(None, Some(&"f".repeat(64))));
    assert!(err.contains("has no segments directory"), "{err}");
}

#[test]
fn reassembly_rebases_the_wal() {
    assert_eq!(assemble(&shard(&[Some(3)])).report.wal_base, 4);
    let later = [Some(3), Some(99)];
    let report = assemble(&shard(&later)).report;
    assert_eq!(report.wal_base, 100);
    verify_assembled(&segments(&later), report.wal_base, report.max_segment_version).unwrap();
}

#[test]
fn verify_catches_a_wal_below_a_segment_version() {
    let report = assemble(&shard(&[Some(5)])).report;
    verify_assembled(&segments(&[Some(5)]), report.wal_base, report.max_segment_version).unwrap();

    let message = verify_assembled(
        &segments(&[Some(5), Some(500)]),
        report.wal_base,
        report.max_segment_version,
    )
    .unwrap_err();
    assert!(message.contains("silently skipped"), "{message}");
}

#[test]
fn verify_reports_missing_files() {
    let message = verify_complete("out/shard_0", &present(&["segments"])).unwrap_err();
    assert!(message.contains("not a complete shard"), "{message}");
    assert!(message.contains("wal"), "{message}");
}

fn dir(name: &str) -> DirEntry {
    DirEntry { name: name.to_string(), is_dir: true }
}

#[test]
fn discover_shards_sorts_by_id() {
    let entries = vec![
        dir("shard_7"),
        dir("shard_0"),
        dir("shard_3"),
        dir("not-a-shard"),
        DirEntry { name: "shard_1".to_string(), is_dir: false },
    ];
    let shards = discover_shards("out", &entries).unwrap();
    assert_eq!(shards.iter().map(|(id, _)| *id).collect::<Vec<_>>(), vec![0, 3, 7]);
    assert!(discover_shards("out", &vec![dir("not-a-shard")]).is_err());
}

// ----- Appendable segments and field indexes -----

fn declared() -> PayloadIndexSchema {
    let mut fields = NameMap::new();
    for name in ["dump", "date"] {
        fields.insert(
            name.to_string(),
            FieldSchema {
                definition: Json::Text("keyword".to_string()),
                expanded: Json::Object(vec![(
                    "type".to_string(),
                    Json::Text("keyword".to_string()),
                )]),
                placement: Memory::Pinned,
            },
        );
    }
    PayloadIndexSchema::from_fields(fields)
}

fn indexed(fields: &[(&str, bool)]) -> BuiltSegment {
    let mut built = segment(0, Some(1));
    for (name, same) in fields {
        built.indexed_fields.insert(
            name.to_string(),
            FoundIndex {
                same: *same,
                segment_definition: "{\"type\":\"float\"}".to_string(),
                document_definition: "\"keyword\"".to_string(),
            },
        );
    }
    built
}

#[test]
fn a_shard_without_an_appendable_segment_gets_one() {
    let mut finished = segments(&[Some(4)]);
    finished[0].appendable = false;
    assert_eq!(appendable_segment_count(&finished), 0);
    match ensure_appendable_segment(&finished, Some(&declared())) {
        Some(indexes) => {
            let names: Vec<String> = indexes.iter().map(|one| one.field_name.clone()).collect();
            assert_eq!(names, ["date", "dump"], "with an index on every declared field");
        }
        None => panic!("a segment must be created"),
    }
    let report = assemble(&shard_with(Some(finished), Some(&"f".repeat(64)))).report;
    assert_eq!(report.segments, 2);
    assert!(ensure_appendable_segment(&segments(&[Some(4)]), None).is_none());
}

#[test]
fn a_segment_must_carry_every_declared_index() {
    let all = vec![indexed(&[("dump", true), ("date", true)])];
    verify_segment_indexes(&all, &declared()).unwrap();

    let missing = vec![indexed(&[("dump", true)])];
    let message = verify_segment_indexes(&missing, &declared()).unwrap_err();
    assert!(message.contains("date"), "{message}");

    let other = vec![indexed(&[("dump", false), ("date", true)])];
    let message = verify_segment_indexes(&other, &declared()).unwrap_err();
    assert!(message.contains("dump"), "{message}");

    let extra = vec![indexed(&[("dump", true), ("date", true), ("url", true)])];
    let message = verify_segment_indexes(&extra, &declared()).unwrap_err();
    assert!(message.contains("url"), "{message}");
}

#[test]
fn versions_are_those_of_the_versioned_segments() {
    assert_eq!(segment_versions(&segments(&[Some(2), None, Some(6)])), Ok(vec![2, 6]));
}

#[test]
fn wal_capacities_are_in_bytes() {
    let options = wal_options(32, 0, 1);
    assert_eq!(options.segment_capacity, 32 * 1024 * 1024);
    assert_eq!(options.segment_queue_len, 0);
    assert_eq!(options.retain_closed, 1);
}
