//! Config documents: the gates, the fingerprints, and the size band.
use serde_json::Value;
use sha2::Digest;
use shard_builder::config::{
    fingerprint, merge_would_be_planned, part_fingerprint, CollectionConfig, DenseResolution,
    HnswConfig, LoadedConfig, Memory, ShardingMethod, SparseResolution, VectorParams,
};
use shard_builder::dense_codec::{encodings_for, DenseEncoding, VectorStorageDatatype};
use shard_builder::document::{from_str as read_document_text, Document, Sections};
use shard_builder::gates::{
    canonical_key, check_hard_limits, check_no_unknown_fields, from_str, from_value,
    require_explicit_fields, ParseOutcome, ValueRule,
};
use shard_builder::json::Json;
use shard_builder::names::NameMap;
use shard_builder::parquet_source::{
    default_batch_size, default_indices_field, default_values_field, IdFormat, ParquetMapping,
    SparseMapping,
};
use shard_builder::payload_index::{FieldSchema, PayloadIndexSchema};

// ----- Documents -----

/// A config document with every required field stated.
fn valid_config_json() -> Value {
    parse(
        r#"{
            "params": {
                "vectors": {
                    "dense": {
                        "size": 768,
                        "distance": "Cosine",
                        "memory": "cold",
                        "datatype": null,
                        "multivector_config": null
                    }
                },
                "sparse_vectors": {
                    "sparse": { "index": { "memory": "cold", "wand_pruning": null } }
                },
                "shard_number": 4,
                "sharding_method": "auto",
                "hash_ring_shard_scale": 100,
                "replication_factor": 1,
                "write_consistency_factor": 1,
                "payload": { "memory": "cold" }
            },
            "hnsw_config": {
                "m": 16,
                "ef_construct": 128,
                "full_scan_threshold": 10000,
                "max_indexing_threads": 8,
                "payload_m": null,
                "memory": null,
                "inline_storage": null
            },
            "optimizer_config": {
                "deleted_threshold": 0.2,
                "vacuum_min_vector_number": 1000,
                "default_segment_number": 8,
                "max_segment_size": 5000000,
                "indexing_threshold": 10000,
                "flush_interval_sec": 5
            },
            "wal_config": { "wal_capacity_mb": 32, "wal_segments_ahead": 0 },
            "quantization_config": { "turbo": { "memory": "pinned", "bits": "bits4" } }
        }"#,
    )
}

fn parse(text: &str) -> Value {
    serde_json::from_str(text).expect("test documents are well formed")
}

/// Put the value written in `text` at a dotted path.
fn put(value: &mut Value, path: &str, text: &str) {
    let mut node = value;
    for part in path.split('.') {
        node = &mut node[part];
    }
    *node = parse(text);
}

fn remove_path(value: &mut Value, path: &str) {
    let mut parts: Vec<&str> = path.split('.').collect();
    let leaf = parts.pop().expect("path is never empty");
    let mut node = value;
    for part in parts {
        match node.get_mut(part) {
            Some(next) => node = next,
            None => return,
        }
    }
    if let Some(map) = node.as_object_mut() {
        map.shift_remove(leaf);
    }
}

fn json(value: &Value) -> Json {
    match value {
        Value::Null => Json::Null,
        Value::Bool(b) => Json::Bool(*b),
        Value::Number(n) => {
            if let Some(n) = n.as_u64() {
                Json::Unsigned(n)
            } else if let Some(n) = n.as_i64() {
                Json::Negative(n)
            } else {
                Json::Decimal(n.to_string())
            }
        }
        Value::String(s) => Json::Text(s.clone()),
        Value::Array(items) => Json::List(items.iter().map(json).collect()),
        Value::Object(map) => {
            Json::Object(map.iter().map(|(key, value)| (key.clone(), json(value))).collect())
        }
    }
}

// ----- Reading a document the way the engine does -----

const KNOWN: &[&str] = &[
    "params", "vectors", "sparse_vectors", "shard_number", "sharding_method",
    "hash_ring_shard_scale", "replication_factor", "write_consistency_factor", "payload", "memory",
    "size", "distance", "datatype", "multivector_config", "index", "wand_pruning", "on_disk",
    "on_disk_payload", "hnsw_config", "m", "ef_construct", "full_scan_threshold",
    "max_indexing_threads", "payload_m", "inline_storage", "optimizer_config",
    "deleted_threshold", "vacuum_min_vector_number", "default_segment_number", "max_segment_size",
    "indexing_threshold", "memmap_threshold", "flush_interval_sec", "prevent_unoptimized",
    "wal_config", "wal_capacity_mb", "wal_segments_ahead", "quantization_config",
];

/// The document with only the fields that the engine knows, under their canonical names.
fn known_fields(value: &Value) -> Value {
    let Some(map) = value.as_object() else {
        return value.clone();
    };
    let mut kept = serde_json::Map::new();
    for (key, member) in map {
        let name = match key.as_str() {
            "max_segment_size_kb" => "max_segment_size",
            "full_scan_threshold_kb" => "full_scan_threshold",
            "indexing_threshold_kb" => "indexing_threshold",
            "memmap_threshold_kb" => "memmap_threshold",
            other => other,
        };
        let member = match name {
            "metadata" | "quantization_config" => member.clone(),
            "vectors" | "sparse_vectors" if member.get("size").is_none() => {
                let Some(named) = member.as_object() else {
                    kept.insert(name.to_string(), member.clone());
                    continue;
                };
                Value::Object(
                    named.iter().map(|(name, one)| (name.clone(), known_fields(one))).collect(),
                )
            }
            known if KNOWN.contains(&known) => known_fields(member),
            _ => continue,
        };
        kept.insert(name.to_string(), member);
    }
    Value::Object(kept)
}

fn memory(value: &Value) -> Option<Memory> {
    match value.as_str() {
        Some("cold") => Some(Memory::Cold),
        Some("cached") => Some(Memory::Cached),
        Some("pinned") => Some(Memory::Pinned),
        _ => None,
    }
}

fn placement(value: &Value) -> Option<Memory> {
    memory(&value["memory"]).or(match value["on_disk"].as_bool() {
        Some(true) => Some(Memory::Cold),
        Some(false) => Some(Memory::Cached),
        None => None,
    })
}

fn datatype(value: &Value) -> Option<VectorStorageDatatype> {
    match value.as_str() {
        Some("float32") => Some(VectorStorageDatatype::Float32),
        Some("float16") => Some(VectorStorageDatatype::Float16),
        Some("uint8") => Some(VectorStorageDatatype::Uint8),
        _ => None,
    }
}

/// A threshold in KB; zero and unset switch it off.
fn threshold(value: &Value) -> u64 {
    match value.as_u64() {
        None | Some(0) => u64::MAX,
        Some(kb) => kb,
    }
}

fn collection(raw: &Value) -> CollectionConfig {
    let known = known_fields(raw);
    let params = &known["params"];
    let hnsw = &known["hnsw_config"];
    let optimizer = &known["optimizer_config"];
    let hnsw = HnswConfig {
        m: hnsw["m"].as_u64().unwrap(),
        ef_construct: hnsw["ef_construct"].as_u64().unwrap(),
        full_scan_threshold: hnsw["full_scan_threshold"].as_u64().unwrap(),
        max_indexing_threads: hnsw["max_indexing_threads"].as_u64().unwrap(),
        payload_m: hnsw["payload_m"].as_u64(),
        on_disk: hnsw["on_disk"].as_bool(),
        memory: memory(&hnsw["memory"]),
        placement: placement(hnsw).unwrap_or(Memory::Cached),
        inline_storage: hnsw["inline_storage"].as_bool(),
    };
    let quantization = &known["quantization_config"];

    let mut vectors = NameMap::new();
    let mut dense_resolution = NameMap::new();
    let mut dense = Vec::new();
    if params["vectors"].get("size").is_some() {
        dense.push((String::new(), params["vectors"].clone()));
    } else if let Some(named) = params["vectors"].as_object() {
        dense.extend(named.iter().map(|(name, one)| (name.clone(), one.clone())));
    }
    for (name, one) in dense {
        vectors.insert(
            name.clone(),
            VectorParams {
                size: one["size"].as_u64().unwrap(),
                datatype: datatype(&one["datatype"]),
            },
        );
        let mut plain = serde_json::Map::new();
        plain.insert("size".to_string(), one["size"].clone());
        plain.insert("distance".to_string(), one["distance"].clone());
        plain.insert("storage_type".to_string(), parse(r#""ChunkedMmap""#));
        plain.insert("index".to_string(), parse(r#"{"type":"plain","options":{}}"#));
        plain.insert("quantization_config".to_string(), Value::Null);
        plain.insert("datatype".to_string(), one["datatype"].clone());
        dense_resolution.insert(
            name,
            DenseResolution {
                plain: json(&Value::Object(plain)),
                storage_on_disk: placement(&one).map(|memory| memory == Memory::Cold),
                hnsw: Some(hnsw),
                quantization: if quantization.is_null() { None } else { Some(json(quantization)) },
            },
        );
    }

    let mut sparse_vectors = NameMap::new();
    let mut sparse_resolution = NameMap::new();
    if let Some(named) = params["sparse_vectors"].as_object() {
        for (name, one) in named {
            sparse_vectors.insert(name.clone(), ());
            let index = &one["index"];
            let mut plain_index = serde_json::Map::new();
            plain_index.insert("full_scan_threshold".to_string(), Value::Null);
            plain_index.insert("index_type".to_string(), parse(r#""MutableRam""#));
            plain_index.insert("memory".to_string(), index["memory"].clone());
            plain_index.insert("wand_pruning".to_string(), index["wand_pruning"].clone());
            let mut plain = serde_json::Map::new();
            plain.insert("index".to_string(), Value::Object(plain_index));
            plain.insert("storage_type".to_string(), parse(r#""Mmap""#));
            sparse_resolution.insert(
                name.clone(),
                SparseResolution {
                    plain: json(&Value::Object(plain)),
                    memory_placement: placement(index),
                },
            );
        }
    }

    let indexing = threshold(&optimizer["indexing_threshold"]);
    CollectionConfig {
        shard_number: params["shard_number"].as_u64().unwrap() as u32,
        sharding_method: match params["sharding_method"].as_str() {
            Some("auto") => Some(ShardingMethod::Auto),
            Some("custom") => Some(ShardingMethod::Custom),
            _ => None,
        },
        hash_ring_shard_scale: params["hash_ring_shard_scale"].as_u64().unwrap() as u32,
        vectors,
        sparse_vectors,
        max_segment_size: optimizer["max_segment_size"].as_u64(),
        default_segment_number: optimizer["default_segment_number"].as_u64().unwrap(),
        indexing_threshold_kb: indexing,
        memmap_threshold_kb: threshold(&optimizer["memmap_threshold"]),
        deferred_points_threshold_bytes: match optimizer["prevent_unoptimized"].as_bool() {
            Some(true) => Some(indexing.saturating_mul(1024)),
            _ => None,
        },
        payload_storage_on_disk: memory(&params["payload"]["memory"]) == Some(Memory::Cold)
            || params["on_disk_payload"].as_bool() == Some(true),
        dense_resolution,
        sparse_resolution,
    }
}

/// What the engine makes of a document that states every required field.
fn outcome(raw: &Value) -> ParseOutcome {
    if require_explicit_fields(&json(raw)).is_err() {
        return ParseOutcome::Unreadable("a required field is absent".to_string());
    }
    ParseOutcome::Parsed { config: collection(raw), round_tripped: json(&known_fields(raw)) }
}

fn load_value(raw: &Value) -> Result<LoadedConfig, String> {
    from_str(&raw.to_string(), outcome(raw)).map_err(|fault| fault.message())
}

fn load(raw: &Value) -> LoadedConfig {
    match load_value(raw) {
        Ok(loaded) => loaded,
        Err(message) => panic!("should load: {message}"),
    }
}

fn refusal(raw: &Value) -> String {
    match load_value(raw) {
        Ok(_) => panic!("should be refused"),
        Err(message) => message,
    }
}

#[test]
fn a_config_that_is_no_json_is_refused() {
    match from_str("{", ParseOutcome::Invalid(String::new())) {
        Ok(_) => panic!("no JSON"),
        Err(fault) => {
            let why = serde_json::from_str::<Value>("{").unwrap_err().to_string();
            assert_eq!(fault.message(), format!("config is not valid JSON: {why}"));
        }
    }
}

// ----- The explicit-fields gate -----

#[test]
fn accepts_fully_specified_config() {
    let loaded = load(&valid_config_json());
    assert_eq!(loaded.shard_number(), 4);
    assert_eq!(loaded.sharding_method(), ShardingMethod::Auto);
    assert_eq!(loaded.hash_ring_shard_scale(), 100);
    assert_eq!(loaded.fingerprint.len(), 64, "sha256 hex is 64 chars");
}

/// Every required field, removed one at a time, must be reported.
#[test]
fn rejects_each_missing_required_field() {
    for path in [
        "params.shard_number",
        "params.sharding_method",
        "params.hash_ring_shard_scale",
        "optimizer_config.max_segment_size",
        "hnsw_config.m",
        "hnsw_config.ef_construct",
        "hnsw_config.full_scan_threshold",
        "hnsw_config.payload_m",
        "hnsw_config.inline_storage",
        "optimizer_config.indexing_threshold",
        "quantization_config",
        "params.sparse_vectors.sparse.index",
        "params.sparse_vectors.sparse.index.memory",
        "params.sparse_vectors.sparse.index.wand_pruning",
        "params.vectors.dense.size",
        "params.vectors.dense.datatype",
        "params.vectors.dense.multivector_config",
        "params.vectors.dense.distance",
    ] {
        let mut value = valid_config_json();
        remove_path(&mut value, path);
        let message = refusal(&value);
        assert!(message.contains(path), "error for missing {path} should name it, got: {message}");
    }
}

#[test]
fn accepts_serde_aliases_for_required_fields() {
    let mut value = valid_config_json();
    remove_path(&mut value, "optimizer_config.max_segment_size");
    put(&mut value, "optimizer_config.max_segment_size_kb", "5000000");
    remove_path(&mut value, "hnsw_config.full_scan_threshold");
    put(&mut value, "hnsw_config.full_scan_threshold_kb", "10000");
    remove_path(&mut value, "optimizer_config.indexing_threshold");
    put(&mut value, "optimizer_config.indexing_threshold_kb", "10000");
    put(&mut value, "optimizer_config.memmap_threshold_kb", "20000");
    load(&value);
}

#[test]
fn rejects_typoed_field_names_by_path() {
    let mut value = valid_config_json();
    put(&mut value, "hnsw_config.inline_storag", "true");
    let text = refusal(&value);
    assert!(text.contains("hnsw_config.inline_storag"), "{text}");
    assert!(text.contains("typo"), "{text}");

    let mut value = valid_config_json();
    put(&mut value, "params.vectors.dense.memmory", r#""cold""#);
    let text = refusal(&value);
    assert!(text.contains("params.vectors.dense.memmory"), "got: {text}");
}

#[test]
fn null_valued_unknown_keys_are_tolerated() {
    let mut value = valid_config_json();
    put(&mut value, "hnsw_config.inline_storag", "null");
    load(&value);
}

#[test]
fn unmentioned_qdrant_fields_pass_through() {
    let mut value = valid_config_json();
    put(&mut value, "metadata", r#"{ "team": "research", "corpus": "fineweb" }"#);
    put(&mut value, "params.replication_factor", "2");
    load(&value);
}

#[test]
fn post_build_adjustable_fields_may_be_omitted() {
    let mut value = valid_config_json();
    remove_path(&mut value, "hnsw_config.memory");
    remove_path(&mut value, "params.vectors.dense.memory");
    remove_path(&mut value, "params.payload");
    load(&value);
}

#[test]
fn accepts_the_deprecated_on_disk_spelling_of_placements() {
    let mut value = valid_config_json();
    remove_path(&mut value, "hnsw_config.memory");
    put(&mut value, "hnsw_config.on_disk", "false");
    remove_path(&mut value, "params.vectors.dense.memory");
    put(&mut value, "params.vectors.dense.on_disk", "true");
    remove_path(&mut value, "params.sparse_vectors.sparse.index.memory");
    put(&mut value, "params.sparse_vectors.sparse.index.on_disk", "true");
    remove_path(&mut value, "params.payload");
    put(&mut value, "params.on_disk_payload", "true");
    load(&value);
}

#[test]
fn rejects_config_exported_from_a_live_collection() {
    let exported = parse(
        r#"{
            "params": {
                "vectors": { "dense": { "size": 16, "distance": "Cosine" } },
                "shard_number": 1,
                "replication_factor": 1,
                "write_consistency_factor": 1,
                "on_disk_payload": true
            },
            "hnsw_config": {
                "m": 48,
                "ef_construct": 256,
                "full_scan_threshold": 12000,
                "max_indexing_threads": 2,
                "on_disk": true,
                "payload_m": 16
            },
            "optimizer_config": {
                "deleted_threshold": 0.2,
                "vacuum_min_vector_number": 1000,
                "default_segment_number": 0,
                "max_segment_size": null,
                "memmap_threshold": null,
                "indexing_threshold": 20000,
                "flush_interval_sec": 5,
                "max_optimization_threads": null,
                "prevent_unoptimized": null
            },
            "wal_config": {
                "wal_capacity_mb": 32,
                "wal_segments_ahead": 0,
                "wal_retain_closed": 1
            },
            "quantization_config": null
        }"#,
    );
    let message = refusal(&exported);
    for expected in [
        "params.sharding_method",
        "params.hash_ring_shard_scale",
        "optimizer_config.max_segment_size",
        "params.vectors.dense.datatype",
        "hnsw_config.inline_storage",
    ] {
        assert!(message.contains(expected), "must be rejected for {expected}, got: {message}");
    }
}

#[test]
fn rejects_auto_sentinels_for_host_derived_fields() {
    let mut zero_segments = valid_config_json();
    put(&mut zero_segments, "optimizer_config.default_segment_number", "0");
    load(&zero_segments);

    let mut null_size = valid_config_json();
    put(&mut null_size, "optimizer_config.max_segment_size", "null");
    let err = refusal(&null_size);
    assert!(err.contains("max_segment_size is missing or null"), "got: {err}");

    let mut zero_shards = valid_config_json();
    put(&mut zero_shards, "params.shard_number", "0");
    let err = refusal(&zero_shards);
    assert!(err.contains("shard_number is missing or 0"), "got: {err}");

    let mut zero_scale = valid_config_json();
    put(&mut zero_scale, "params.hash_ring_shard_scale", "0");
    let err = refusal(&zero_scale);
    assert!(err.contains("hash_ring_shard_scale is missing or 0"), "got: {err}");

    let mut null_sharding = valid_config_json();
    put(&mut null_sharding, "params.sharding_method", "null");
    let err = refusal(&null_sharding);
    assert!(err.contains("sharding_method is missing or null"), "got: {err}");
}

#[test]
fn explicit_null_counts_as_stated() {
    let mut value = valid_config_json();
    put(&mut value, "quantization_config", "null");
    load(&value);
}

#[test]
fn handles_single_unnamed_vector_form() {
    let mut value = valid_config_json();
    put(
        &mut value,
        "params.vectors",
        r#"{ "size": 768, "distance": "Cosine", "memory": "cold", "datatype": null,
             "multivector_config": null }"#,
    );
    load(&value);

    let mut value = valid_config_json();
    put(&mut value, "params.vectors", r#"{ "size": 768, "distance": "Cosine" }"#);
    assert!(refusal(&value).contains("params.vectors.datatype"));
}

#[test]
fn requires_sparse_index_placement() {
    let mut dense_only = valid_config_json();
    remove_path(&mut dense_only, "params.sparse_vectors");
    load(&dense_only);

    let mut value = valid_config_json();
    put(&mut value, "params.sparse_vectors", r#"{ "sparse": {} }"#);
    let err = refusal(&value);
    assert!(err.contains("params.sparse_vectors.sparse.index"), "got: {err}");

    let mut value = valid_config_json();
    put(&mut value, "params.sparse_vectors", r#"{ "sparse": { "index": {} } }"#);
    let err = refusal(&value);
    assert!(err.contains("params.sparse_vectors.sparse.index.memory"), "got: {err}");

    let mut value = valid_config_json();
    put(
        &mut value,
        "params.sparse_vectors",
        r#"{ "sparse": { "index": { "memory": "cold" } } }"#,
    );
    let err = refusal(&value);
    assert!(err.contains("params.sparse_vectors.sparse.index.wand_pruning"), "got: {err}");

    let mut value = valid_config_json();
    put(
        &mut value,
        "params.sparse_vectors",
        r#"{ "sparse": { "index": { "memory": "cold", "wand_pruning": null } } }"#,
    );
    load(&value);
}

#[test]
fn requires_every_named_vector_to_be_explicit() {
    let mut value = valid_config_json();
    put(
        &mut value,
        "params.vectors.sparse_ish",
        r#"{ "size": 256, "distance": "Dot", "multivector_config": null }"#,
    );
    let err = refusal(&value);
    assert!(err.contains("params.vectors.sparse_ish.datatype"), "got: {err}");
}

// ----- The full fingerprint -----

/// The same document with its sections in another order.
fn reordered() -> Value {
    let valid = valid_config_json();
    let mut value = serde_json::Map::new();
    for key in ["quantization_config", "wal_config", "optimizer_config", "hnsw_config", "params"] {
        value.insert(key.to_string(), valid[key].clone());
    }
    Value::Object(value)
}

#[test]
fn fingerprint_is_stable_across_key_order() {
    assert_eq!(
        load(&valid_config_json()).fingerprint,
        load(&reordered()).fingerprint,
        "fingerprint must not depend on document key order",
    );
}

#[test]
fn fingerprint_ignores_max_indexing_threads() {
    let base = load(&valid_config_json());
    let mut value = valid_config_json();
    put(&mut value, "hnsw_config.max_indexing_threads", "64");
    assert_eq!(
        base.fingerprint,
        load(&value).fingerprint,
        "max_indexing_threads must not affect the fingerprint",
    );
}

#[test]
fn equivalent_placement_spellings_hash_identically() {
    let modern = load(&valid_config_json());

    let mut legacy = valid_config_json();
    remove_path(&mut legacy, "params.vectors.dense.memory");
    put(&mut legacy, "params.vectors.dense.on_disk", "true");
    remove_path(&mut legacy, "hnsw_config.memory");
    put(&mut legacy, "hnsw_config.on_disk", "false");
    remove_path(&mut legacy, "params.sparse_vectors.sparse.index.memory");
    put(&mut legacy, "params.sparse_vectors.sparse.index.on_disk", "true");
    remove_path(&mut legacy, "params.payload");
    put(&mut legacy, "params.on_disk_payload", "true");
    let legacy = load(&legacy);

    assert_eq!(
        modern.fingerprint, legacy.fingerprint,
        "the same resolved placement must hash identically in both spellings",
    );
    assert_eq!(modern.part_fingerprint, legacy.part_fingerprint);
}

#[test]
fn fingerprint_changes_for_every_rebuild_triggering_hnsw_field() {
    let base = load(&valid_config_json()).fingerprint;
    for (field, new_value) in [
        ("m", "32"),
        ("ef_construct", "256"),
        ("full_scan_threshold", "20000"),
        ("payload_m", "16"),
        ("memory", r#""cold""#),
        ("inline_storage", "true"),
    ] {
        let mut value = valid_config_json();
        put(&mut value, &format!("hnsw_config.{field}"), new_value);
        assert_ne!(
            base,
            load(&value).fingerprint,
            "changing hnsw_config.{field} must change the fingerprint",
        );
    }
}

fn changed(path: &str, new_value: &str) -> LoadedConfig {
    let mut value = valid_config_json();
    put(&mut value, path, new_value);
    load(&value)
}

#[test]
fn fingerprint_changes_for_quantization_and_placement() {
    let base = load(&valid_config_json()).fingerprint;
    for (path, new_value) in [
        ("quantization_config.turbo.bits", r#""bits2""#),
        ("quantization_config.turbo.memory", r#""cached""#),
        ("params.vectors.dense.memory", "null"),
        ("params.payload.memory", r#""cached""#),
        ("params.sparse_vectors.sparse.index.memory", r#""cached""#),
        ("params.sparse_vectors.sparse.index.wand_pruning", "false"),
    ] {
        assert_ne!(base, changed(path, new_value).fingerprint, "{path} must change the fingerprint");
    }
}

#[test]
fn fingerprint_changes_for_topology_and_budget() {
    let base = load(&valid_config_json()).fingerprint;
    for (path, new_value) in [
        ("params.shard_number", "8"),
        ("params.hash_ring_shard_scale", "500"),
        ("optimizer_config.default_segment_number", "16"),
        ("optimizer_config.max_segment_size", "1000000"),
    ] {
        assert_ne!(base, changed(path, new_value).fingerprint, "{path} must change the fingerprint");
    }
}

#[test]
fn fingerprint_changes_for_optimizer_thresholds() {
    let base = load(&valid_config_json()).fingerprint;
    for (path, new_value) in [
        ("optimizer_config.indexing_threshold", "0"),
        ("optimizer_config.memmap_threshold", "1"),
        ("optimizer_config.prevent_unoptimized", "true"),
    ] {
        assert_ne!(base, changed(path, new_value).fingerprint, "{path} must change the fingerprint");
    }
    assert_eq!(
        changed("optimizer_config.memmap_threshold", "null").fingerprint,
        changed("optimizer_config.memmap_threshold", "0").fingerprint,
        "unset and 0 memmap_threshold both mean disabled and must hash identically",
    );
}

/// A payload index schema, each definition expanded and its placement resolved as the engine does.
fn index_fields(text: &str) -> NameMap<FieldSchema> {
    let mut fields = NameMap::new();
    for (name, definition) in parse(text).as_object().unwrap() {
        let expanded = match definition.as_str() {
            Some(kind) => {
                let mut expanded = serde_json::Map::new();
                expanded.insert("type".to_string(), Value::String(kind.to_string()));
                Value::Object(expanded)
            }
            None => definition.clone(),
        };
        let placement = memory(&expanded["memory"]).unwrap_or(
            if expanded["on_disk"].as_bool() == Some(true) { Memory::Cold } else { Memory::Pinned },
        );
        fields.insert(
            name.clone(),
            FieldSchema { definition: json(definition), expanded: json(&expanded), placement },
        );
    }
    fields
}

fn schema(text: &str) -> PayloadIndexSchema {
    PayloadIndexSchema::from_fields(index_fields(text))
}

fn with_index(text: &str) -> String {
    match fingerprint(&collection(&valid_config_json()), Some(&schema(text))) {
        Ok(fingerprint) => fingerprint,
        Err(fault) => panic!("not an object: {}", fault.field),
    }
}

#[test]
fn fingerprint_covers_the_payload_index_schema() {
    let none = match fingerprint(&collection(&valid_config_json()), None) {
        Ok(fingerprint) => fingerprint,
        Err(fault) => panic!("not an object: {}", fault.field),
    };
    let cold = with_index(r#"{"dump": {"type": "keyword", "memory": "cold"}}"#);
    let pinned = with_index(r#"{"dump": {"type": "keyword", "memory": "pinned"}}"#);
    assert_ne!(none, cold, "declaring an index must change the fingerprint");
    assert_ne!(cold, pinned, "changing an index definition must change the fingerprint");
}

#[test]
fn equivalent_payload_index_spellings_hash_identically() {
    let memory = with_index(r#"{"dump": {"type": "keyword", "memory": "cold"}}"#);
    let legacy = with_index(r#"{"dump": {"type": "keyword", "on_disk": true}}"#);
    assert_eq!(memory, legacy, "on_disk: true and memory: cold are one placement in two spellings");

    let bare = with_index(r#"{"dump": "keyword"}"#);
    let off = with_index(r#"{"dump": {"type": "keyword", "on_disk": false}}"#);
    let pinned = with_index(r#"{"dump": {"type": "keyword", "memory": "pinned"}}"#);
    assert_eq!(bare, off);
    assert_eq!(off, pinned);

    let tenant = with_index(r#"{"dump": {"type": "keyword", "memory": "cold", "is_tenant": true}}"#);
    assert_ne!(memory, tenant, "is_tenant is not a placement and must stay strict");
}

/// A definition that is no object has no canonical form.
#[test]
fn an_index_that_is_no_object_is_named() {
    let mut fields = NameMap::new();
    fields.insert(
        "odd".to_string(),
        FieldSchema {
            definition: Json::Unsigned(3),
            expanded: Json::Unsigned(3),
            placement: Memory::Cold,
        },
    );
    let all = PayloadIndexSchema::from_fields(fields);
    match fingerprint(&collection(&valid_config_json()), Some(&all)) {
        Ok(_) => panic!("a definition that is no object has no canonical form"),
        Err(fault) => assert_eq!(fault.field, "odd"),
    }
}

// ----- The part fingerprint -----

#[test]
fn the_two_fingerprints_are_distinct_and_well_formed() {
    let loaded = load(&valid_config_json());
    assert_eq!(loaded.part_fingerprint.len(), 64, "sha256 hex is 64 chars");
    assert_ne!(loaded.fingerprint, loaded.part_fingerprint);
}

#[test]
fn part_fingerprint_is_stable_across_key_order() {
    assert_eq!(
        load(&valid_config_json()).part_fingerprint,
        load(&reordered()).part_fingerprint,
        "part fingerprint must not depend on document key order",
    );
}

#[test]
fn part_fingerprint_ignores_everything_a_part_does_not_depend_on() {
    let base = load(&valid_config_json()).part_fingerprint;
    for (path, new_value) in [
        ("hnsw_config.m", "48"),
        ("hnsw_config.ef_construct", "256"),
        ("hnsw_config.full_scan_threshold", "20000"),
        ("hnsw_config.payload_m", "0"),
        ("hnsw_config.memory", r#""cold""#),
        ("hnsw_config.inline_storage", "true"),
        ("hnsw_config.max_indexing_threads", "32"),
        ("optimizer_config.max_segment_size", "9000000"),
        ("optimizer_config.default_segment_number", "16"),
        ("optimizer_config.indexing_threshold", "50000"),
        ("optimizer_config.memmap_threshold", "20000"),
        ("wal_config.wal_capacity_mb", "64"),
        ("params.payload.memory", r#""cached""#),
        ("params.vectors.dense.memory", "null"),
        ("params.vectors.dense.distance", r#""Dot""#),
        ("quantization_config.turbo.bits", r#""bits2""#),
    ] {
        assert_eq!(
            base,
            changed(path, new_value).part_fingerprint,
            "{path} must NOT affect the part fingerprint",
        );
    }
}

#[test]
fn part_fingerprint_changes_only_for_routing() {
    let base = load(&valid_config_json()).part_fingerprint;
    for (path, new_value) in [
        ("params.shard_number", "8"),
        ("params.sharding_method", r#""custom""#),
        ("params.hash_ring_shard_scale", "200"),
    ] {
        assert_ne!(base, changed(path, new_value).part_fingerprint, "{path} decides routing");
    }
    for (path, new_value) in [
        ("params.vectors.dense.size", "512"),
        ("params.vectors.dense.datatype", r#""float16""#),
        ("params.sparse_vectors", "null"),
        (
            "params.vectors.second",
            r#"{ "size": 256, "distance": "Dot", "memory": "cold", "datatype": null,
                 "multivector_config": null }"#,
        ),
    ] {
        assert_eq!(base, changed(path, new_value).part_fingerprint, "{path} is no routing");
    }
}

fn text_map(entries: &[(&str, &str)]) -> NameMap<String> {
    let mut map = NameMap::new();
    for (name, value) in entries {
        map.insert(name.to_string(), value.to_string());
    }
    map
}

fn mapping(id_column: &str, id_format: IdFormat, payload: &[&str]) -> ParquetMapping {
    ParquetMapping {
        id_column: id_column.to_string(),
        id_format,
        dense_vectors: text_map(&[("dense", "dense_embedding")]),
        sparse_vectors: NameMap::new(),
        payload_columns: payload.iter().map(|name| name.to_string()).collect(),
        batch_size: default_batch_size(),
    }
}

#[test]
fn part_fingerprint_covers_the_mapping_fields_that_decide_routing() {
    let config = collection(&valid_config_json());
    let baseline = part_fingerprint(&config, Some(&mapping("id", IdFormat::UrnUuid, &["url"])));

    assert_ne!(
        baseline,
        part_fingerprint(&config, Some(&mapping("doc_id", IdFormat::UrnUuid, &["url"]))),
        "id_column decides point identity",
    );
    assert_ne!(
        baseline,
        part_fingerprint(&config, Some(&mapping("id", IdFormat::Integer, &["url"]))),
        "id_format decides point identity",
    );
    assert_eq!(
        baseline,
        part_fingerprint(
            &config,
            Some(&mapping("id", IdFormat::UrnUuid, &["url", "dump", "text"])),
        ),
        "changing payload_columns must NOT invalidate a scatter",
    );
    assert_ne!(baseline, part_fingerprint(&config, None));
}

/// The part fingerprint of a known routing is one fixed digest.
#[test]
fn the_part_fingerprint_is_a_digest_of_the_routing() {
    let config = collection(&valid_config_json());
    let surface = concat_surface(&config, None);
    assert_eq!(part_fingerprint(&config, None), digest(&surface));
    let mapped = mapping("id", IdFormat::Integer, &[]);
    let surface = concat_surface(&config, Some(("id", "Integer")));
    assert_eq!(part_fingerprint(&config, Some(&mapped)), digest(&surface));
}

/// The text that a part fingerprint is taken over, written out.
fn concat_surface(config: &CollectionConfig, id: Option<(&str, &str)>) -> String {
    let id = match id {
        Some((column, format)) => format!("\"id_column\":\"{column}\",\"id_format\":\"{format}\""),
        None => "\"id_column\":null,\"id_format\":null".to_string(),
    };
    format!(
        "{{\"version\":3,\"shard_number\":{},\"sharding_method\":\"Auto\",\
         \"hash_ring_shard_scale\":{},{id}}}",
        config.shard_number, config.hash_ring_shard_scale,
    )
}

fn digest(surface: &str) -> String {
    sha2::Sha256::digest(surface.as_bytes()).iter().map(|byte| format!("{byte:02x}")).collect()
}

// ----- Hard limits -----

#[test]
fn rejects_max_segment_size_beyond_what_a_segment_can_address() {
    let addressable_kb = 768u128 * 4 * u128::from(u32::MAX) / 1024;

    let mut value = valid_config_json();
    put(
        &mut value,
        "optimizer_config.max_segment_size",
        &format!("{}", addressable_kb as u64 + 1),
    );
    let message = refusal(&value);
    assert!(
        message.contains("structurally impossible") && message.contains("max_segment_size"),
        "got: {message}",
    );

    let mut value = valid_config_json();
    put(&mut value, "optimizer_config.max_segment_size", &format!("{}", addressable_kb as u64));
    load(&value);
}

#[test]
fn addressable_limit_accounts_for_vector_width() {
    let mut value = valid_config_json();
    put(&mut value, "params.vectors.dense.size", "16");
    put(&mut value, "params.vectors.dense.datatype", r#""uint8""#);
    let addressable_kb = 16u128 * u128::from(u32::MAX) / 1024;
    put(
        &mut value,
        "optimizer_config.max_segment_size",
        &format!("{}", addressable_kb as u64 + 1),
    );
    let message = refusal(&value);
    assert!(message.contains("structurally impossible"), "got: {message}");
}

#[test]
fn too_many_shards_are_impossible() {
    let mut config = collection(&valid_config_json());
    config.shard_number = 16_777_215;
    assert!(check_hard_limits(&config).is_ok());
    config.shard_number = 16_777_216;
    match check_hard_limits(&config) {
        Ok(()) => panic!("one shard too many"),
        Err(limits) => assert_eq!(
            limits.message(),
            "config is structurally impossible, not just unwise:\n  \
             params.shard_number (16777216) exceeds U24::MAX (16777215)",
        ),
    }
}

/// What the engine's parser and validator say is passed on, in that order of precedence.
#[test]
fn what_the_parser_says_is_passed_on() {
    let raw = json(&valid_config_json());
    let unreadable = ParseOutcome::Unreadable("bad value at line 3".to_string());
    match from_value(&raw, unreadable) {
        Ok(_) => panic!("an unreadable config does not load"),
        Err(fault) => assert!(fault.message().contains("bad value at line 3")),
    }
    let invalid = ParseOutcome::Invalid("hnsw_config.ef_construct: too small".to_string());
    match from_value(&raw, invalid) {
        Ok(_) => panic!("an invalid config does not load"),
        Err(fault) => assert!(fault.message().contains("ef_construct")),
    }
    // A missing field is reported before anything the parser says.
    let mut value = valid_config_json();
    remove_path(&mut value, "hnsw_config.m");
    let unreadable = ParseOutcome::Unreadable("bad value at line 3".to_string());
    match from_value(&json(&value), unreadable) {
        Ok(_) => panic!("a missing field is refused"),
        Err(fault) => assert!(fault.message().contains("hnsw_config.m is missing or null")),
    }
}

#[test]
fn aliases_stand_for_their_canonical_names() {
    assert_eq!(canonical_key("max_segment_size_kb"), "max_segment_size");
    assert_eq!(canonical_key("full_scan_threshold_kb"), "full_scan_threshold");
    assert_eq!(canonical_key("indexing_threshold_kb"), "indexing_threshold");
    assert_eq!(canonical_key("memmap_threshold_kb"), "memmap_threshold");
    assert_eq!(canonical_key("max_segment_size"), "max_segment_size");
    assert_eq!(canonical_key("anything"), "anything");
}

#[test]
fn complaints_say_what_a_field_must_be() {
    assert_eq!(ValueRule::Present.complaint(), "is missing");
    assert_eq!(ValueRule::NonNull.complaint(), "is missing or null (null defers to a default)");
    assert_eq!(
        ValueRule::NonZero.complaint(),
        "is missing or 0 (0 means 'derive from this host')",
    );
}

#[test]
fn unknown_fields_are_found_by_path_at_any_depth() {
    let stated = json(&parse(r#"{"a": {"b": 1, "c": {"d": 2}}, "e": [1], "f": null}"#));
    let read = json(&parse(r#"{"a": {"c": {}}, "e": []}"#));
    match check_no_unknown_fields(&stated, &read) {
        Ok(()) => panic!("two fields were not read"),
        Err(unknown) => {
            let message = unknown.message();
            assert!(message.contains("a.b"), "{message}");
            assert!(message.contains("a.c.d"), "{message}");
        }
    }
    assert!(check_no_unknown_fields(&stated, &stated).is_ok());
}

// ----- The size band -----

#[test]
fn merge_safe_floor_is_half_of_max_segment_size() {
    let loaded = load(&valid_config_json());
    let max = 5_000_000u64 * 1024;
    assert_eq!(loaded.max_segment_size_bytes(), Some(max));
    assert_eq!(loaded.merge_safe_min_segment_bytes(), Some(max / 2));
    assert_eq!(loaded.target_segment_band_bytes(), Some((max / 2, max)));
}

#[test]
fn segments_at_or_above_the_floor_never_pair() {
    let threshold = 1_000u64;
    let floor = threshold.div_ceil(2);

    assert!(!merge_would_be_planned(&[floor; 2], threshold));
    assert!(!merge_would_be_planned(&[floor; 50], threshold));
    assert!(!merge_would_be_planned(&[threshold - 1; 200], threshold));
    assert!(merge_would_be_planned(&[floor - 1; 2], threshold));
}

#[test]
fn many_large_segments_are_left_alone() {
    let threshold = 20 * 1024 * 1024 * 1024u64;
    let segment = threshold;
    assert!(!merge_would_be_planned(&vec![segment; 160], threshold));
}

// ----- Documents of more than one section -----

fn document_json() -> Value {
    let mut value = parse(
        r#"{
            "mapping": {
                "id_column": "id",
                "id_format": "urn_uuid",
                "dense_vectors": { "dense": "dense_embedding" },
                "sparse_vectors": { "sparse": { "column": "sparse_embedding" } },
                "payload_columns": ["dump", "date", "language_score"]
            },
            "payload_index": {
                "dump": { "type": "keyword", "memory": "cold" },
                "date": { "type": "datetime", "memory": "cold" },
                "language_score": { "type": "float", "memory": "cold" }
            }
        }"#,
    );
    value["collection"] = valid_config_json();
    value
}

fn read_mapping(value: &Value) -> ParquetMapping {
    let mut dense_vectors = NameMap::new();
    for (name, column) in value["dense_vectors"].as_object().unwrap() {
        dense_vectors.insert(name.clone(), column.as_str().unwrap().to_string());
    }
    let mut sparse_vectors = NameMap::new();
    for (name, sparse) in value["sparse_vectors"].as_object().unwrap() {
        sparse_vectors.insert(
            name.clone(),
            SparseMapping {
                column: sparse["column"].as_str().unwrap().to_string(),
                indices_field: default_indices_field(),
                values_field: default_values_field(),
            },
        );
    }
    ParquetMapping {
        id_column: value["id_column"].as_str().unwrap().to_string(),
        id_format: IdFormat::UrnUuid,
        dense_vectors,
        sparse_vectors,
        payload_columns: value["payload_columns"]
            .as_array()
            .unwrap()
            .iter()
            .map(|name| name.as_str().unwrap().to_string())
            .collect(),
        batch_size: default_batch_size(),
    }
}

fn document(value: &Value) -> Result<Document, String> {
    let sections = Sections {
        parsed: outcome(&value["collection"]),
        mapping: value.get("mapping").map(read_mapping),
        fields: value.get("payload_index").map(|section| index_fields(&section.to_string())),
    };
    read_document_text(&value.to_string(), Ok(sections)).map_err(|fault| fault.message())
}

fn read_document(value: &Value) -> Document {
    match document(value) {
        Ok(document) => document,
        Err(message) => panic!("should load: {message}"),
    }
}

fn document_refusal(value: &Value) -> String {
    match document(value) {
        Ok(_) => panic!("should be refused"),
        Err(message) => message,
    }
}

#[test]
fn parses_all_three_sections() {
    let document = read_document(&document_json());
    assert!(document.mapping.is_some());
    assert_eq!(document.payload_index.as_ref().unwrap().len(), 3);
    assert!(!document.config.fingerprint.is_empty());
}

#[test]
fn collection_alone_is_a_valid_document() {
    let mut value = document_json();
    remove_path(&mut value, "mapping");
    remove_path(&mut value, "payload_index");
    let document = read_document(&value);
    assert!(document.mapping.is_none());
    assert!(document.payload_index.is_none());
}

/// What is said of a text that has no known sections.
fn unreadable(text: &str) -> String {
    match read_document_text(text, Err("missing field `collection`".to_string())) {
        Ok(_) => panic!("should be refused"),
        Err(fault) => fault.message(),
    }
}

#[test]
fn requires_the_collection_section() {
    let message = unreadable("{}");
    assert!(message.contains("collection"), "{message}");
    assert_eq!(unreadable("not json"), "missing field `collection`");
    let sections = Sections {
        parsed: ParseOutcome::Invalid(String::new()),
        mapping: None,
        fields: None,
    };
    match read_document_text("{}", Ok(sections)) {
        Ok(_) => panic!("there is no collection"),
        Err(fault) => assert_eq!(fault.message(), "missing field `collection`"),
    }
}

#[test]
fn recognises_a_bare_collection_config() {
    let text = unreadable(&valid_config_json().to_string());
    assert!(text.contains("bare collection config"), "{text}");
    assert!(text.contains("\"collection\""), "{text}");
}

#[test]
fn rejects_an_empty_payload_index_section() {
    let mut value = document_json();
    put(&mut value, "payload_index", "{}");
    let text = document_refusal(&value);
    assert!(text.contains("omit it"), "{text}");
}

#[test]
fn rejects_a_vector_the_mapping_does_not_produce() {
    let mut value = document_json();
    put(&mut value, "mapping.dense_vectors", r#"{ "wrong_name": "dense_embedding" }"#);
    let text = document_refusal(&value);
    assert!(text.contains("dense vector 'dense'"), "{text}");
}

#[test]
fn rejects_a_mapping_vector_the_collection_does_not_declare() {
    let mut value = document_json();
    put(&mut value, "mapping.dense_vectors.extra", r#""other_column""#);
    let text = document_refusal(&value);
    assert!(text.contains("'extra'"), "{text}");
}

#[test]
fn rejects_a_sparse_vector_the_mapping_does_not_produce() {
    let mut value = document_json();
    put(&mut value, "mapping.sparse_vectors", "{}");
    let text = document_refusal(&value);
    assert!(text.contains("sparse vector 'sparse'"), "{text}");
}

#[test]
fn rejects_an_index_on_a_field_that_is_not_in_the_payload() {
    let mut value = document_json();
    put(&mut value, "payload_index.url", r#"{ "type": "keyword", "memory": "cold" }"#);
    let text = document_refusal(&value);
    assert!(text.contains("'url'"), "{text}");
    assert!(text.contains("index would be built over nothing"), "{text}");
}

#[test]
fn payload_index_moves_the_fingerprint_but_not_the_part_fingerprint() {
    let base = read_document(&document_json()).config;

    let mut changed = document_json();
    put(&mut changed, "payload_index.dump", r#"{ "type": "keyword", "memory": "pinned" }"#);
    let changed = read_document(&changed).config;
    assert_ne!(
        base.fingerprint, changed.fingerprint,
        "an edited payload index must invalidate existing plans",
    );
    assert_eq!(
        base.part_fingerprint, changed.part_fingerprint,
        "an edited payload index must NOT invalidate a scatter",
    );

    let mut dropped = document_json();
    remove_path(&mut dropped, "payload_index");
    let dropped = read_document(&dropped).config;
    assert_ne!(
        base.fingerprint, dropped.fingerprint,
        "declaring no indexes is a different artifact than declaring three",
    );
}

#[test]
fn payload_index_residency_is_optional() {
    let mut value = document_json();
    put(&mut value, "payload_index.dump", r#"{ "type": "keyword" }"#);
    read_document(&value);

    let mut value = document_json();
    put(&mut value, "payload_index.dump", r#""keyword""#);
    read_document(&value);
}

#[test]
fn a_fault_in_a_section_names_the_section() {
    let mut value = document_json();
    put(&mut value, "collection.params.shard_number", "0");
    let text = document_refusal(&value);
    assert!(text.starts_with("in the \"collection\" section: "), "{text}");

    let mut value = document_json();
    put(&mut value, "mapping.dense_vectors", "{}");
    put(&mut value, "mapping.sparse_vectors", "{}");
    let text = document_refusal(&value);
    assert!(text.starts_with("in the \"mapping\" section: "), "{text}");
}

// ----- Payload indexes -----

#[test]
fn parses_the_three_fineweb_indexes() {
    let schema = schema(
        r#"{
            "dump":           {"type": "keyword",  "memory": "cold"},
            "date":           {"type": "datetime", "memory": "cold"},
            "language_score": {"type": "float",    "memory": "cold"}
        }"#,
    );
    assert_eq!(schema.len(), 3);
    let operations = schema.create_operations();
    assert_eq!(operations.len(), 3, "one create per field");
    assert_eq!(operations[0].field_name, "date");
    assert_eq!(schema.fields(), ["date", "dump", "language_score"]);
}

#[test]
fn residency_is_optional() {
    assert_eq!(schema(r#"{"dump": {"type": "keyword"}}"#).len(), 1);
    assert_eq!(schema(r#"{"dump": "keyword"}"#).len(), 1);
}

#[test]
fn accepts_both_placement_spellings() {
    assert_eq!(schema(r#"{"dump": {"type": "keyword", "memory": "cold"}}"#).len(), 1);
    assert_eq!(schema(r#"{"dump": {"type": "keyword", "on_disk": true}}"#).len(), 1);
}

/// The canonical form of an index states the placement that its spellings resolve to.
#[test]
fn canonical_fields_state_the_resolved_placement() {
    let legacy = schema(r#"{"dump": {"type": "keyword", "on_disk": true}}"#);
    let modern = schema(r#"{"dump": {"type": "keyword", "memory": "cold"}}"#);
    let one = legacy.canonical_fields().unwrap_or_else(|fault| panic!("{}", fault.field));
    let other = modern.canonical_fields().unwrap_or_else(|fault| panic!("{}", fault.field));
    assert_eq!(one.get("dump").unwrap().to_text(), r#"{"type":"keyword","memory":"cold"}"#);
    assert_eq!(
        one.get("dump").unwrap().to_text(),
        other.get("dump").unwrap().to_text(),
    );
}

fn member(name: &str, value: Json) -> (String, Json) {
    (name.to_string(), value)
}

fn words(text: &str) -> Json {
    Json::Text(text.to_string())
}

/// Wherever among the parameters a placement is spelled, and in whichever way, the canonical form is
/// one, and the other parameters keep their order in it.
#[test]
fn a_placement_may_stand_anywhere_among_the_parameters() {
    let bare = || {
        vec![
            member("type", words("text")),
            member("tokenizer", words("word")),
            member("lowercase", Json::Bool(true)),
        ]
    };
    let flag = || member("on_disk", Json::Bool(true));
    let memory = || member("memory", words("cold"));
    let mut spelled = vec![bare()];
    for i in 0..=3 {
        let mut by_flag = bare();
        by_flag.insert(i, flag());
        let mut by_memory = bare();
        by_memory.insert(i, memory());
        for j in 0..=4 {
            let mut both = bare();
            both.insert(i, flag());
            both.insert(j, memory());
            spelled.push(both);
        }
        spelled.push(by_flag);
        spelled.push(by_memory);
    }
    for expanded in spelled {
        let mut fields = NameMap::new();
        let field = FieldSchema {
            definition: Json::Null,
            expanded: Json::Object(expanded),
            placement: Memory::Cold,
        };
        fields.insert("body".to_string(), field);
        let canonical = PayloadIndexSchema::from_fields(fields)
            .canonical_fields()
            .unwrap_or_else(|fault| panic!("{}", fault.field));
        assert_eq!(
            canonical.get("body").unwrap().to_text(),
            r#"{"type":"text","tokenizer":"word","lowercase":true,"memory":"cold"}"#,
        );
    }
}

/// Wherever a sparse index states its placement, the fingerprint is one: what it resolves to counts.
#[test]
fn a_sparse_placement_may_stand_anywhere_in_the_index() {
    let hashed = |place: Option<usize>, stated: &str, resolved: Memory| {
        let mut index = vec![
            member("full_scan_threshold", Json::Unsigned(5_000)),
            member("index_type", words("mutable_ram")),
            member("datatype", Json::Null),
        ];
        if let Some(place) = place {
            index.insert(place, member("memory", words(stated)));
        }
        let mut config = collection(&valid_config_json());
        config.sparse_resolution.insert(
            "sparse".to_string(),
            SparseResolution {
                plain: Json::Object(vec![
                    member("modifier", Json::Null),
                    member("index", Json::Object(index)),
                    member("storage_type", words("mmap")),
                ]),
                memory_placement: Some(resolved),
            },
        );
        fingerprint(&config, None).unwrap_or_else(|fault| panic!("{}", fault.field))
    };
    let unstated = hashed(None, "", Memory::Cold);
    for place in 0..=3 {
        assert_eq!(hashed(Some(place), "cold", Memory::Cold), unstated);
        assert_eq!(hashed(Some(place), "pinned", Memory::Cold), unstated);
    }
    assert_ne!(hashed(None, "", Memory::Cached), unstated);
}

#[test]
fn fingerprints_are_lower_case_hexadecimal() {
    let config = load(&valid_config_json());
    for fingerprint in [&config.fingerprint, &config.part_fingerprint] {
        assert_eq!(fingerprint.len(), 64);
        assert!(fingerprint.chars().all(|c| matches!(c, '0'..='9' | 'a'..='f')), "{fingerprint}");
    }
}

// ----- Encodings -----

#[test]
fn encodings_come_from_the_collection_config() {
    let mut value = valid_config_json();
    put(&mut value, "params.vectors.dense.datatype", r#""float16""#);
    assert_eq!(encodings_for(&load(&value)).get("dense"), Some(&DenseEncoding::F16));

    assert_eq!(
        encodings_for(&load(&valid_config_json())).get("dense"),
        Some(&DenseEncoding::F32),
        "an unset datatype must keep full width",
    );
}
