//! The build phase: dividing the work, and what a build checks before and after it.
use shard_builder::assemble::{segment_dirs, DirEntry};
use shard_builder::building::{
    add_sparse_bytes, build_stamp, built_segment_dir, check_batch_points, check_ingested, check_orphans, check_plan,
    check_sparse_size_assumption, collapsed, default_concurrency, dense_element_size,
    dense_storage_bytes, incomplete_temp_name, indexing_threads, is_incomplete_for,
    part_planned_ends, record_version, shard_dir_name, staging_dir_name, take_share, take_slice,
    wanted_fields, work_list, BuildFingerprint, BuildRoute, SliceNeed, SliceReader, StagedSegment,
    OBSERVED_CORES_PER_BUILD,
};
use shard_builder::config::{CollectionConfig, LoadedConfig, ShardingMethod, VectorParams};
use shard_builder::dense_codec::{DenseEncoding, VectorStorageDatatype};
use shard_builder::frames::PartMeta;
use shard_builder::ids::uuid_name;
use shard_builder::names::NameMap;
use shard_builder::parquet_source::{IdFormat, ParquetMapping, SparseMapping};
use shard_builder::partfile::{
    DenseSpec, PartHeader, PartManifest, PartProjection, SparseSpec,
};
use shard_builder::plan::{group_into_segments, PartSlice, SegmentPlan, ShardPlan};
use shard_builder::records::{PartRecord, PointId, SparseVector};

/// A loaded config with the given dense vectors and one sparse vector.
fn loaded(vectors: &[(&str, u64, Option<VectorStorageDatatype>)], shards: u32) -> LoadedConfig {
    let mut dense = NameMap::new();
    for (name, size, datatype) in vectors {
        dense.insert(name.to_string(), VectorParams { size: *size, datatype: *datatype });
    }
    let mut sparse_vectors = NameMap::new();
    sparse_vectors.insert("sparse".to_string(), ());
    LoadedConfig {
        config: CollectionConfig {
            shard_number: shards,
            sharding_method: Some(ShardingMethod::Auto),
            hash_ring_shard_scale: 100,
            vectors: dense,
            sparse_vectors,
            max_segment_size: Some(5_000_000),
            default_segment_number: 8,
            indexing_threshold_kb: 10_000,
            memmap_threshold_kb: u64::MAX,
            deferred_points_threshold_bytes: None,
            payload_storage_on_disk: true,
            dense_resolution: NameMap::new(),
            sparse_resolution: NameMap::new(),
        },
        fingerprint: "f".repeat(64),
        part_fingerprint: "a".repeat(64),
    }
}

fn valid() -> LoadedConfig {
    loaded(&[("dense", 768, None)], 4)
}

// ----- Dividing the work -----

#[test]
fn segment_slices_partition_the_work_exactly_once() {
    let work: Vec<usize> = (0..37).collect();
    let mut seen = Vec::new();
    for index in 0..4 {
        let mine = take_slice(work.clone(), index, 4).unwrap();
        assert_eq!(
            mine,
            take_slice(work.clone(), index, 4).unwrap(),
            "a slice must be deterministic",
        );
        seen.extend(mine);
    }
    seen.sort_unstable();
    assert_eq!(seen, work, "the slices must reassemble the whole list exactly");
}

#[test]
fn slices_stride_rather_than_chunk() {
    let work: Vec<usize> = (0..12).collect();
    assert_eq!(take_slice(work.clone(), 0, 3).unwrap(), vec![0, 3, 6, 9]);
    assert_eq!(take_slice(work, 1, 3).unwrap(), vec![1, 4, 7, 10]);
}

#[test]
fn rejects_a_segment_slice_outside_the_total() {
    let err = take_slice((0..10).collect::<Vec<_>>(), 4, 4).unwrap_err();
    assert!(err.contains("--slice must be"), "{err}");
}

#[test]
fn rejects_a_segment_slice_that_covers_nothing() {
    let err = take_slice((0..3).collect::<Vec<_>>(), 5, 8).unwrap_err();
    assert!(err.contains("covers no segments"), "{err}");
}

#[test]
fn a_share_says_what_it_covers_none_of() {
    let err = take_share(vec![1], 1, 2, "shards").unwrap_err();
    assert!(err.contains("covers no shards"), "{err}");
    assert_eq!(take_share(vec![1], 0, 2, "shards").unwrap(), vec![1]);
    assert!(take_share(vec![1], 0, 0, "shards").is_err());
}

fn segment_with_parts(seq: usize, parts: Vec<PartSlice>) -> SegmentPlan {
    SegmentPlan { seq, uuid: 0, parts, points: 0, vector_bytes: 0 }
}

fn slice(part: &str, skip: u64, take: u64) -> PartSlice {
    PartSlice { part: part.to_string(), skip, take }
}

fn shard_plan(shard_id: u32, segments: Vec<SegmentPlan>) -> ShardPlan {
    ShardPlan {
        shard_id,
        config_fingerprint: "f".repeat(64),
        max_segment_size_bytes: 0,
        merge_safe_min_bytes: 0,
        bytes_per_point: 0,
        points: 0,
        segments,
    }
}

#[test]
fn part_planned_ends_takes_the_max_end_across_split_segments() {
    let plan = shard_plan(
        0,
        vec![
            segment_with_parts(0, vec![slice("big", 0, 100), slice("small", 0, 40)]),
            segment_with_parts(1, vec![slice("big", 100, 150)]),
        ],
    );
    let ends = part_planned_ends(&plan);
    assert_eq!(ends.get("big"), Some(&250), "terminal slice is the 100..250 one");
    assert_eq!(ends.get("small"), Some(&40));
    assert_eq!(ends.len(), 2);
}

#[test]
fn the_work_is_every_segment_of_every_plan_in_order() {
    let plans = vec![
        shard_plan(0, vec![segment_with_parts(0, vec![]), segment_with_parts(1, vec![])]),
        shard_plan(1, vec![]),
        shard_plan(2, vec![segment_with_parts(0, vec![])]),
    ];
    assert_eq!(work_list(&plans), vec![(0, 0), (0, 1), (2, 0)]);
}

// ----- Fingerprints and plans -----

#[test]
fn build_fingerprint_round_trips_and_falls_back_to_legacy() {
    let fp = BuildFingerprint { full: "a".repeat(64), part: "b".repeat(64) };
    let parsed = BuildFingerprint { full: "a".repeat(64), part: "b".repeat(64) };
    let body = format!("{{\"full\":\"{}\",\"part\":\"{}\"}}", fp.full, fp.part);
    let read = BuildFingerprint::parse(&body, Some(parsed));
    assert_eq!((read.full, read.part), (fp.full, fp.part));

    for legacy in ["deadbeef".repeat(8), "1".repeat(64), "  9f2c\n".to_string()] {
        let parsed = BuildFingerprint::parse(&legacy, None);
        assert_eq!(parsed.full, legacy.trim(), "legacy body {legacy:?} -> full");
        assert!(parsed.part.is_empty(), "legacy body {legacy:?} -> empty part");
    }

    assert_eq!(BuildFingerprint::parse("", None).full, "");
    assert!(BuildFingerprint::parse("", None).part.is_empty());

    let stray = r#"{"other":1}"#;
    assert_eq!(BuildFingerprint::parse(stray, None).full, stray);
}

#[test]
fn a_build_is_stamped_with_both_fingerprints() {
    let stamp = build_stamp(&valid());
    assert_eq!(stamp.full, "f".repeat(64));
    assert_eq!(stamp.part, "a".repeat(64));
}

#[test]
fn a_plan_for_another_config_is_refused() {
    let config = valid();
    assert!(check_plan(&shard_plan(0, vec![]), &config).is_ok());
    let mut stale = shard_plan(3, vec![]);
    stale.config_fingerprint = "e".repeat(64);
    let err = check_plan(&stale, &config).unwrap_err();
    assert!(err.contains("different collection config"), "{err}");
}

// ----- Sizes and thresholds -----

#[test]
fn dense_storage_bytes_takes_the_largest_vector_not_the_total() {
    let config = loaded(&[("small", 16, None), ("large", 64, None)], 4);
    assert_eq!(dense_storage_bytes(&config, 1000).unwrap(), 1000 * 64 * 4);
}

#[test]
fn dense_storage_bytes_follows_the_configured_datatype() {
    let config = loaded(&[("dense", 768, Some(VectorStorageDatatype::Float16))], 4);
    assert_eq!(dense_storage_bytes(&config, 100).unwrap(), 100 * 768 * 2);
}

#[test]
fn an_element_has_a_whole_number_of_bytes() {
    assert_eq!(dense_element_size(None), Ok(4));
    assert_eq!(dense_element_size(Some(VectorStorageDatatype::Float32)), Ok(4));
    assert_eq!(dense_element_size(Some(VectorStorageDatatype::Float16)), Ok(2));
    assert_eq!(dense_element_size(Some(VectorStorageDatatype::Uint8)), Ok(1));
    assert!(dense_element_size(Some(VectorStorageDatatype::Turbo4)).is_err());
}

/// A record adds the terms of all its sparse vectors.
#[test]
fn sparse_bytes_are_counted_by_the_term() {
    let vector = |terms: u32| SparseVector {
        indices: (0..terms).collect(),
        values: (0..terms).collect(),
    };
    let mut sparse = NameMap::new();
    sparse.insert("a".to_string(), vector(3));
    sparse.insert("b".to_string(), vector(0));
    sparse.insert("c".to_string(), vector(4));
    let record =
        PartRecord { id: PointId::NumId(1), dense: NameMap::new(), sparse, payload: None };
    assert_eq!(add_sparse_bytes(0, &record, 16), Some(112));
    assert_eq!(add_sparse_bytes(112, &record, 16), Some(224));
    assert_eq!(add_sparse_bytes(usize::MAX - 7, &record, 1), Some(usize::MAX));
    assert_eq!(add_sparse_bytes(usize::MAX - 6, &record, 1), None);
    assert_eq!(add_sparse_bytes(0, &record, usize::MAX), None);
}

#[test]
fn a_segment_whose_sparse_data_dominates_is_refused() {
    let message = check_sparse_size_assumption(&valid(), 1_000, 1_000_000, 50_000_000)
        .expect_err("a threshold-crossing sparse footprint must be refused");
    assert!(message.contains("indexing_threshold"), "{message}");
    assert!(message.contains("--route edge"), "{message}");
}

#[test]
fn a_segment_whose_dense_data_dominates_is_accepted() {
    check_sparse_size_assumption(&valid(), 100_000, 300_000_000, 40_000_000).unwrap();
}

#[test]
fn a_larger_sparse_footprint_on_the_same_side_of_the_threshold_is_accepted() {
    check_sparse_size_assumption(&valid(), 100_000, 300_000_000, 900_000_000).unwrap();
}

#[test]
fn default_concurrency_follows_measured_cores_per_build() {
    for cores in [0, 1, 2, 7, 8, 64] {
        let concurrency = default_concurrency(cores);
        assert!(concurrency >= 1, "must always allow one build");
        assert_eq!(concurrency, (cores / OBSERVED_CORES_PER_BUILD).max(1));
        if cores >= 8 {
            assert!(
                concurrency > cores / 8,
                "must not under-subscribe the way dividing by max_indexing_threads did",
            );
        }
    }
}

#[test]
fn indexing_threads_are_as_given_or_as_resolved() {
    assert_eq!(indexing_threads(Some(3), 8), Ok(3));
    assert_eq!(indexing_threads(None, 8), Ok(8));
    assert!(indexing_threads(Some(0), 8).is_err());
}

// ----- Fields -----

#[test]
fn a_name_used_for_both_dense_and_sparse_keeps_its_own_source_column() {
    let mut config = loaded(&[("dense", 768, None)], 4);
    let mut sparse_vectors = NameMap::new();
    sparse_vectors.insert("dense".to_string(), ());
    config.config.sparse_vectors = sparse_vectors;

    let mut dense_vectors = NameMap::new();
    dense_vectors.insert("dense".to_string(), "dense_column".to_string());
    let mut sparse_vectors = NameMap::new();
    sparse_vectors.insert(
        "dense".to_string(),
        SparseMapping {
            column: "sparse_column".to_string(),
            indices_field: "indices".to_string(),
            values_field: "values".to_string(),
        },
    );
    let mapping = ParquetMapping {
        id_column: "id".to_string(),
        id_format: IdFormat::UrnUuid,
        dense_vectors,
        sparse_vectors,
        payload_columns: vec![],
        batch_size: 1024,
    };

    let wanted = wanted_fields(&config, Some(&mapping));
    assert_eq!(wanted.dense_sources.get("dense").map(String::as_str), Some("dense_column"));
    assert_eq!(wanted.sparse_sources.get("dense").map(String::as_str), Some("sparse_column"));

    let mut dense = NameMap::new();
    dense.insert(
        "dense".to_string(),
        DenseSpec {
            encoding: DenseEncoding::F32,
            dim: 768,
            source: Some("dense_column".to_string()),
        },
    );
    let mut sparse = NameMap::new();
    sparse.insert(
        "dense".to_string(),
        SparseSpec { source: Some("sparse_column".to_string()) },
    );
    let head = PartHeader {
        part_fingerprint: config.part_fingerprint.clone(),
        file_id: "f".to_string(),
        source_path: "x.parquet".to_string(),
        shard_id: 0,
        manifest: PartManifest { dense, sparse, payload: Some(vec![]) },
    };
    match PartProjection::resolve(&head, &wanted) {
        Ok(projection) => assert!(projection.is_identity()),
        Err(fault) => panic!("must not trip the provenance check: {}", fault.message("p")),
    }
}

// ----- Directories -----

#[test]
fn directories_are_named_after_their_shard_and_segment() {
    assert_eq!(shard_dir_name(7), "shard_7");
    let uuid = 0x3ed0eebe_1ff3_534b_92d1_4dd3036c9840;
    let staging = staging_dir_name(7, uuid);
    assert!(staging.contains("7") && staging.contains(&uuid_name(uuid)), "{staging}");
}

fn staged(path: &str, versioned: bool, appendable: bool) -> StagedSegment {
    StagedSegment { path: path.to_string(), appendable, versioned }
}

#[test]
fn picks_the_segment_with_points_over_the_empty_appendable_one() {
    let segments =
        vec![staged("indexed", true, false), staged("fresh-appendable", false, true)];
    assert_eq!(built_segment_dir(&segments, "segments"), Ok("indexed".to_string()));
}

#[test]
fn accepts_a_single_unoptimized_segment() {
    let segments = vec![staged("only", true, false)];
    assert_eq!(built_segment_dir(&segments, "segments"), Ok("only".to_string()));
    let segments = vec![staged("only", true, true)];
    assert_eq!(built_segment_dir(&segments, "segments"), Ok("only".to_string()));
}

#[test]
fn reports_a_staging_shard_with_no_points() {
    let err = built_segment_dir(&vec![staged("empty", false, true)], "segments").unwrap_err();
    assert!(err.contains("no segment holding points"), "{err}");
}

#[test]
fn refuses_multiple_segments_with_points() {
    let segments = vec![staged("aaaa", true, false), staged("bbbb", true, false)];
    let err = built_segment_dir(&segments, "segments").unwrap_err();
    assert!(err.contains("expected 1"), "{err}");
}

#[test]
fn picks_the_built_segment_even_when_the_empty_one_has_a_version() {
    let segments = vec![staged("indexed", true, false), staged("fresh-appendable", true, true)];
    assert_eq!(built_segment_dir(&segments, "segments"), Ok("indexed".to_string()));
}

#[test]
fn still_refuses_two_optimized_segments() {
    let segments = vec![staged("aaaa", true, false), staged("bbbb", true, false)];
    let err = built_segment_dir(&segments, "segments").unwrap_err();
    assert!(err.contains("expected 1"), "{err}");
}

fn dir(name: &str) -> DirEntry {
    DirEntry { name: name.to_string(), is_dir: true }
}

#[test]
fn ignores_optimizer_scratch_directories() {
    let entries = vec![dir("aaaa"), dir("temp_segments"), dir(".hidden")];
    let dirs = segment_dirs(&entries);
    assert_eq!(dirs, ["aaaa"]);
    let segments = dirs.iter().map(|name| staged(name, true, false)).collect();
    assert_eq!(built_segment_dir(&segments, "segments"), Ok("aaaa".to_string()));
}

#[test]
fn a_segment_that_no_plan_names_is_an_orphan() {
    let uuid = 0x3ed0eebe_1ff3_534b_92d1_4dd3036c9840;
    let mut planned = segment_with_parts(0, vec![]);
    planned.uuid = uuid;
    let plan = shard_plan(0, vec![planned]);
    let known = vec![dir(&uuid_name(uuid)), dir(".left.incomplete"), dir("notes")];
    assert!(check_orphans(&plan, "segments", &known).is_ok());

    let stale = vec![dir(&uuid_name(uuid + 1))];
    let err = check_orphans(&plan, "segments", &stale).unwrap_err();
    assert!(err.contains(&uuid_name(uuid + 1)), "{err}");
}

#[test]
fn the_publish_temp_path_is_unique_per_publisher() {
    let uuid = 0x3ed0eebe_1ff3_534b_92d1_4dd3036c9840;
    let name = uuid_name(uuid);
    assert_eq!(name, "3ed0eebe-1ff3-534b-92d1-4dd3036c9840");

    let first = incomplete_temp_name(&name, 17, 0);
    let second = incomplete_temp_name(&name, 17, 1);
    assert_ne!(first, second, "two publishers of the same segment would share a directory");
    assert_ne!(first, incomplete_temp_name(&name, 18, 0));

    for temp in [&first, &second] {
        assert!(temp.starts_with('.'), "{temp} is not hidden");
        assert!(temp.contains(&name), "{temp} does not identify its segment");
        assert!(is_incomplete_for(temp, uuid), "{temp} is what a crashed publisher leaves");
        assert!(!is_incomplete_for(temp, uuid + 1));
    }
    assert!(!is_incomplete_for(&name, uuid));
}

// ----- Reading a planned slice -----

/// Feed a reader the records of a part and collect the positions it keeps.
fn read_part(reader: &mut SliceReader, records: u64) -> Result<Vec<u64>, String> {
    let mut kept = Vec::new();
    let mut next = 0;
    loop {
        match reader.need() {
            SliceNeed::Nothing => return Ok(kept),
            _ => {
                let found = next < records;
                if reader.feed(found)? {
                    kept.push(next);
                }
                next += 1;
            }
        }
    }
}

#[test]
fn a_slice_keeps_its_own_records() {
    let plan = shard_plan(
        0,
        vec![
            segment_with_parts(0, vec![slice("p", 0, 3)]),
            segment_with_parts(1, vec![slice("p", 3, 4)]),
        ],
    );
    let ends = part_planned_ends(&plan);
    let mut first = SliceReader::open("p", BuildRoute::Bulk, &plan.segments[0].parts[0], &ends);
    assert_eq!(read_part(&mut first, 7), Ok(vec![0, 1, 2]));
    let mut last = SliceReader::open("p", BuildRoute::Bulk, &plan.segments[1].parts[0], &ends);
    assert_eq!(read_part(&mut last, 7), Ok(vec![3, 4, 5, 6]));
}

#[test]
fn a_part_that_shrank_or_grew_since_planning_is_refused() {
    let plan = shard_plan(0, vec![segment_with_parts(0, vec![slice("p", 2, 3)])]);
    let ends = part_planned_ends(&plan);
    let read = |route: BuildRoute, records: u64| {
        read_part(&mut SliceReader::open("p", route, &plan.segments[0].parts[0], &ends), records)
    };

    assert_eq!(
        read(BuildRoute::Bulk, 1).unwrap_err(),
        "p: ended after skipping 1 of 2 records of the plan's slice; the scatter output changed \
         since planning. Re-run the plan phase.",
    );
    assert_eq!(
        read(BuildRoute::Edge, 1).unwrap_err(),
        "p: ended while skipping to record 2 of the plan's slice; the scatter output changed \
         since planning. Re-run the plan phase.",
    );
    assert_eq!(
        read(BuildRoute::Bulk, 4).unwrap_err(),
        "p: ended with 1 planned record(s) unread; the scatter output changed since planning. \
         Re-run the plan phase.",
    );
    assert_eq!(
        read(BuildRoute::Edge, 4).unwrap_err(),
        "p: ended after 2 of 3 planned records; the scatter output changed since planning. \
         Re-run the plan phase.",
    );
    for route in [BuildRoute::Bulk, BuildRoute::Edge] {
        assert!(read(route, 6).unwrap_err().contains("has more than the 5 record(s) planned"));
        assert_eq!(read(route, 5), Ok(vec![2, 3, 4]));
    }
}

#[test]
fn a_plan_is_read_as_long_as_no_part_changes() {
    let sizes = [("a", 7u64), ("b", 0), ("c", 12), ("d", 3)];
    let parts: Vec<(String, PartMeta)> = sizes
        .iter()
        .map(|(name, records)| (name.to_string(), PartMeta { records: *records, bytes: 0 }))
        .collect();
    let plan = shard_plan(0, group_into_segments(&parts, 5, 4, 0, "fp"));
    let ends = part_planned_ends(&plan);
    let read_all = |changed: &str, now: u64| -> Result<Vec<u64>, String> {
        let mut counts = Vec::new();
        for segment in &plan.segments {
            let mut count = 0;
            for slice in &segment.parts {
                let planned = sizes.iter().find(|(name, _)| *name == slice.part).unwrap().1;
                let records = if slice.part == changed { now } else { planned };
                let mut reader = SliceReader::open(&slice.part, BuildRoute::Bulk, slice, &ends);
                count += read_part(&mut reader, records)?.len() as u64;
            }
            counts.push(count);
        }
        Ok(counts)
    };

    let planned: Vec<u64> = plan.segments.iter().map(|segment| segment.points).collect();
    assert_eq!(read_all("", 0), Ok(planned));
    for (name, records) in sizes {
        if records > 0 {
            assert!(read_all(name, records + 1).is_err(), "{name} grew");
            assert!(read_all(name, records - 1).is_err(), "{name} shrank");
        }
    }
}

#[test]
fn versions_and_counts() {
    assert_eq!(record_version(0, 10), 1);
    assert_eq!(record_version(9, 10), 1);
    assert_eq!(record_version(10, 10), 2);
    assert!(check_batch_points(1).is_ok());
    assert!(check_batch_points(0).is_err());
    assert!(check_ingested(5, 5).is_ok());
    assert!(check_ingested(5, 4).is_err());
    assert_eq!(collapsed(10, 7), 3);
    assert_eq!(collapsed(7, 10), 0);
}
