//! Planning: how a shard's records are cut into segments.
use shard_builder::config::{
    merge_would_be_planned, CollectionConfig, LoadedConfig, ShardingMethod, VectorParams,
};
use shard_builder::dense_codec::VectorStorageDatatype;
use shard_builder::frames::PartMeta;
use shard_builder::ids::uuid_name;
use shard_builder::names::NameMap;
use shard_builder::plan::{
    bytes_per_point, check_no_empty_shards, discover_part_names, finish_plan, group_into_segments,
    plan_scope, plan_shard, read_part_metas, review, segment_uuid, PartSlice, PlanOptions,
    PlanReport, SegmentPlan, ShardPlan,
};
use shard_builder::ring::ShardRouter;

/// A loaded config with the given dense vectors and one sparse vector.
fn loaded(vectors: &[(&str, u64, Option<VectorStorageDatatype>)], shards: u32) -> LoadedConfig {
    let mut dense = NameMap::new();
    for (name, size, datatype) in vectors {
        dense.insert(name.to_string(), VectorParams { size: *size, datatype: *datatype });
    }
    let mut sparse_vectors = NameMap::new();
    sparse_vectors.insert("sparse".to_string(), ());
    LoadedConfig {
        config: CollectionConfig {
            shard_number: shards,
            sharding_method: Some(ShardingMethod::Auto),
            hash_ring_shard_scale: 100,
            vectors: dense,
            sparse_vectors,
            max_segment_size: Some(5_000_000),
            default_segment_number: 8,
            indexing_threshold_kb: 10_000,
            memmap_threshold_kb: u64::MAX,
            deferred_points_threshold_bytes: None,
            payload_storage_on_disk: true,
            dense_resolution: NameMap::new(),
            sparse_resolution: NameMap::new(),
        },
        fingerprint: "f".repeat(64),
        part_fingerprint: "a".repeat(64),
    }
}

fn valid(shards: u32) -> LoadedConfig {
    loaded(&[("dense", 768, None)], shards)
}

fn meta(records: u64) -> PartMeta {
    PartMeta { records, bytes: records * 64 }
}

fn parts(counts: &[u64]) -> Vec<(String, PartMeta)> {
    counts.iter().enumerate().map(|(i, &n)| (format!("part_{i:04}"), meta(n))).collect()
}

fn options(workers: usize, slice: Option<(usize, usize)>, replan: bool) -> PlanOptions {
    PlanOptions { workers, slice, replan }
}

/// Plan a work directory of `parts_per_shard` parts of `records` records in each listed shard.
fn build(
    config: &LoadedConfig,
    shards_with_parts: &[u32],
    parts_per_shard: usize,
    records: u64,
    options: PlanOptions,
    planned: &[u32],
) -> Result<PlanReport, String> {
    let router = ShardRouter::new(config)?;
    let scope = plan_scope(config, &router, options, &planned.to_vec())?;
    let found: Vec<(u32, usize)> = scope
        .pending
        .iter()
        .map(|&shard| (shard, if shards_with_parts.contains(&shard) { parts_per_shard } else { 0 }))
        .collect();
    check_no_empty_shards(&found)?;
    let mut plans = Vec::new();
    for &shard_id in &scope.pending {
        let files: Vec<String> = (0..parts_per_shard)
            .rev()
            .flat_map(|i| vec![format!("part_{i:04}"), format!("part_{i:04}.meta")])
            .collect();
        let names = discover_part_names("shard", &files)?;
        let metas = names.iter().map(|_| Some(meta(records))).collect();
        let parts = read_part_metas(names, &metas)?;
        plans.push(plan_shard(config, &scope, shard_id, &parts));
    }
    finish_plan(plans, scope.skipped, "state")
}

fn same_segments(a: &[SegmentPlan], b: &[SegmentPlan]) -> bool {
    format!("{a:?}") == format!("{b:?}")
}

#[test]
fn planning_accepts_a_changed_hnsw_config() {
    // The parts are bound by the part fingerprint alone, which a retuned config shares.
    let mut retuned = valid(4);
    retuned.fingerprint = "e".repeat(64);
    let report = build(&retuned, &[0, 1, 2, 3], 2, 50, options(2, None, false), &[]).unwrap();
    assert_eq!(report.plans.len(), 4, "a retuned config still plans the same parts");
}

#[test]
fn plan_is_resumable_per_shard() {
    let config = valid(4);
    let shards = [0, 1, 2, 3];
    let first = build(&config, &shards, 3, 100, options(4, None, false), &[]).unwrap();
    assert_eq!(first.plans.len(), 4, "all four shards planned");
    assert_eq!(first.shards_skipped, 0);

    let second = build(&config, &shards, 3, 100, options(4, None, false), &shards).unwrap();
    assert!(second.plans.is_empty(), "nothing replanned");
    assert_eq!(second.shards_skipped, 4);

    let forced = build(&config, &shards, 3, 100, options(4, None, true), &shards).unwrap();
    assert_eq!(forced.plans.len(), 4, "--replan redoes them");
    assert_eq!(forced.shards_skipped, 0);
}

#[test]
fn planning_refuses_an_empty_shard_before_writing_plans() {
    let err = build(&valid(4), &[0, 1, 3], 2, 50, options(2, None, false), &[]).unwrap_err();
    assert!(err.contains("shard(s) [2] contain no scattered points"), "{err}");
}

#[test]
fn plan_slices_cover_every_shard_exactly_once() {
    let config = valid(4);
    let shards = [0, 1, 2, 3];
    let mut planned = Vec::new();
    for index in 0..2 {
        let report =
            build(&config, &shards, 2, 50, options(2, Some((index, 2)), false), &planned).unwrap();
        planned.extend(report.plans.iter().map(|plan| plan.shard_id));
    }
    planned.sort_unstable();
    assert_eq!(planned, vec![0, 1, 2, 3], "between them, every shard");

    let after = build(&config, &shards, 2, 50, options(2, None, false), &planned).unwrap();
    assert_eq!(after.shards_skipped, 4, "nothing left to plan");
}

#[test]
fn plan_worker_count_does_not_change_the_result() {
    let config = valid(2);
    let one = build(&config, &[0, 1], 9, 40, options(1, None, false), &[]).unwrap();
    let many = build(&config, &[0, 1], 9, 40, options(8, None, false), &[]).unwrap();
    assert_eq!(one.plans.len(), many.plans.len());
    for (a, b) in one.plans.iter().zip(&many.plans) {
        assert_eq!(a.points, b.points);
        assert!(
            same_segments(&a.segments, &b.segments),
            "identical segments, including pinned uuids and part order",
        );
    }
}

#[test]
fn bytes_per_point_follows_the_configured_datatype() {
    assert_eq!(bytes_per_point(&valid(4)).unwrap(), 768 * 4);
    let half = loaded(&[("dense", 768, Some(VectorStorageDatatype::Float16))], 4);
    assert_eq!(bytes_per_point(&half).unwrap(), 768 * 2);
}

#[test]
fn bytes_per_point_sums_over_named_vectors() {
    let config = loaded(
        &[("dense", 768, None), ("second", 256, Some(VectorStorageDatatype::Uint8))],
        4,
    );
    assert_eq!(bytes_per_point(&config).unwrap(), 768 * 4 + 256);
}

/// Total points sliced into a segment, for checking nothing is lost or duplicated.
fn slice_total(segment: &SegmentPlan) -> u64 {
    segment.parts.iter().map(|slice| slice.take).sum()
}

#[test]
fn every_segment_lands_inside_the_size_band() {
    let ceiling = 100u64;
    let bytes = 4u64;
    for counts in [
        vec![1000u64],
        vec![250, 250, 250, 250],
        vec![7, 3, 11, 1, 5, 9, 400],
        vec![100],
        vec![101],
        vec![199],
        vec![201],
    ] {
        let total: u64 = counts.iter().sum();
        let segments = group_into_segments(&parts(&counts), ceiling, bytes, 0, "fp");
        assert_eq!(
            segments.iter().map(|s| s.points).sum::<u64>(),
            total,
            "points lost for {counts:?}",
        );
        for segment in &segments {
            assert!(segment.points <= ceiling, "oversized segment for {counts:?}");
            if segments.len() > 1 {
                assert!(segment.points * 2 >= ceiling, "undersized segment for {counts:?}");
            }
            assert_eq!(slice_total(segment), segment.points, "slice sum mismatch");
            assert_eq!(segment.vector_bytes, segment.points * bytes);
        }
    }
}

#[test]
fn a_single_large_part_is_split_across_segments() {
    let segments = group_into_segments(&parts(&[1000]), 100, 4, 0, "fp");
    assert_eq!(segments.len(), 10);
    for segment in &segments {
        assert_eq!(segment.points, 100);
        assert_eq!(segment.parts.len(), 1, "each slice comes from the one part");
    }
    let mut expected_skip = 0;
    for segment in &segments {
        assert_eq!(segment.parts[0].skip, expected_skip);
        expected_skip += segment.parts[0].take;
    }
    assert_eq!(expected_skip, 1000);
}

#[test]
fn slices_tile_every_part_exactly_once() {
    let counts = [30u64, 45, 25, 60];
    let segments = group_into_segments(&parts(&counts), 40, 4, 0, "fp");
    let mut covered: Vec<(String, u64)> = Vec::new();
    for segment in &segments {
        for slice in &segment.parts {
            for offset in slice.skip..slice.skip + slice.take {
                covered.push((slice.part.clone(), offset));
            }
        }
    }
    let unique: std::collections::HashSet<_> = covered.iter().cloned().collect();
    assert_eq!(covered.len(), unique.len(), "a record was read twice");
    assert_eq!(covered.len() as u64, counts.iter().sum::<u64>());
}

#[test]
fn a_shard_smaller_than_one_segment_becomes_one_segment() {
    let segments = group_into_segments(&parts(&[10]), 1000, 4, 0, "fp");
    assert_eq!(segments.len(), 1);
    assert_eq!(segments[0].points, 10);
    assert!(segments[0].points * 2 < 1000);
}

#[test]
fn grouping_is_deterministic_and_uuids_are_pinned() {
    let first = group_into_segments(&parts(&[3, 3, 3, 3]), 10, 4, 7, "fp");
    let second = group_into_segments(&parts(&[3, 3, 3, 3]), 10, 4, 7, "fp");
    assert!(same_segments(&first, &second), "replanning must produce the same segments");

    let other_shard = group_into_segments(&parts(&[3, 3, 3, 3]), 10, 4, 8, "fp");
    assert_ne!(first[0].uuid, other_shard[0].uuid);

    assert_eq!(first[0].uuid, segment_uuid(7, 0, "fp", &first[0].parts));

    let retuned = group_into_segments(&parts(&[3, 3, 3, 3]), 10, 4, 7, "fp2");
    assert_ne!(
        first[0].uuid, retuned[0].uuid,
        "a changed config fingerprint must change the segment directory name",
    );
    assert_eq!(first[0].seq, retuned[0].seq, "but the position is unchanged");

    let regrouped = group_into_segments(&parts(&[6, 6]), 10, 4, 7, "fp");
    assert_ne!(
        first[0].uuid, regrouped[0].uuid,
        "a changed part grouping must change the segment directory name",
    );
}

/// The name of a segment is a version 5 UUID in the OID namespace.
/// A fingerprint that reads like the rest of a name does not make two segments one.
#[test]
fn segment_uuids_tell_segments_apart() {
    let slice = |part: &str, skip: u64, take: u64| PartSlice { part: part.to_string(), skip, take };
    let one = vec![slice("a", 0, 5), slice("b", 0, 5)];
    let uuid = segment_uuid(0, 1, "fp", &one);
    assert_eq!(uuid, segment_uuid(0, 1, "fp", &vec![slice("a", 0, 5), slice("b", 0, 5)]));
    for other in [
        segment_uuid(1, 1, "fp", &one),
        segment_uuid(0, 0, "fp", &one),
        segment_uuid(0, 1, "other", &one),
        segment_uuid(0, 1, "fp", &vec![slice("a", 0, 5), slice("b", 0, 6)]),
        segment_uuid(0, 1, "fp", &vec![slice("b", 0, 5), slice("a", 0, 5)]),
        segment_uuid(0, 1, "fp/parts[a:0:5;b:0:5;]", &vec![]),
    ] {
        assert_ne!(uuid, other);
    }
}

/// A run after one that planned everything skips every shard, and planning again gives the same.
#[test]
fn a_repeated_run_plans_nothing() {
    let config = valid(3);
    let router = ShardRouter::new(&config).unwrap();
    let scope = plan_scope(&config, &router, options(1, None, false), &vec![1])
        .unwrap_or_else(|message| panic!("{message}"));
    assert_eq!(scope.pending, [0, 2]);
    let repeated = plan_scope(&config, &router, options(1, None, false), &vec![1, 0, 2])
        .unwrap_or_else(|message| panic!("{message}"));
    assert!(repeated.pending.is_empty());
    assert_eq!(repeated.skipped, 3);
    let again = plan_scope(&config, &router, options(1, None, true), &vec![0, 1, 2])
        .unwrap_or_else(|message| panic!("{message}"));
    assert_eq!(again.pending, [0, 1, 2]);

    let some = parts(&[40_000_000, 7, 90_000]);
    let first = plan_shard(&config, &scope, 2, &some);
    assert!(same_segments(&first.segments, &plan_shard(&config, &again, 2, &some).segments));
}

#[test]
fn segment_names_are_version_5_uuids() {
    let slices = vec![PartSlice { part: "a".to_string(), skip: 0, take: 3 }];
    let name = uuid_name(segment_uuid(0, 0, "fp", &slices));
    assert_eq!(name.len(), 36);
    assert_eq!(name.as_bytes()[14], b'5', "{name}");
    let longer = vec![PartSlice { part: "a".to_string(), skip: 0, take: 4 }];
    assert_ne!(name, uuid_name(segment_uuid(0, 0, "fp", &longer)));
}

#[test]
fn every_point_appears_in_exactly_one_segment() {
    let counts = [7u64, 3, 11, 1, 5, 9];
    let segments = group_into_segments(&parts(&counts), 10, 4, 0, "fp");
    let planned: u64 = segments.iter().map(|s| s.points).sum();
    assert_eq!(planned, counts.iter().sum::<u64>());
    let mut seen: Vec<&str> = segments
        .iter()
        .flat_map(|s| s.parts.iter().map(|slice| slice.part.as_str()))
        .collect();
    seen.sort_unstable();
    seen.dedup();
    assert_eq!(seen.len(), counts.len(), "every part contributes");
}

fn reviewed(shard_id: u32, points: u64, segments: &[u64]) -> ShardPlan {
    ShardPlan {
        shard_id,
        config_fingerprint: "fp".to_string(),
        max_segment_size_bytes: 1000,
        merge_safe_min_bytes: 500,
        bytes_per_point: 1,
        points,
        segments: segments
            .iter()
            .enumerate()
            .map(|(seq, &points)| SegmentPlan {
                seq,
                uuid: 0,
                parts: vec![PartSlice { part: format!("{seq}"), skip: 0, take: 1 }],
                points,
                vector_bytes: points,
            })
            .collect(),
    }
}

#[test]
fn review_flags_multiple_short_segments() {
    let notes = review(&reviewed(0, 300, &[100, 200]));
    assert!(notes.iter().any(|note| note.contains("merge-safe floor")), "got: {notes:?}");
}

#[test]
fn review_accepts_a_single_short_segment() {
    let notes = review(&reviewed(3, 100, &[100]));
    assert!(
        !notes.iter().any(|note| note.contains("would merge")),
        "a lone short segment cannot be merged: {notes:?}",
    );
}

#[test]
fn review_is_silent_for_a_well_sized_plan() {
    let notes = review(&reviewed(0, 1800, &[1000, 800]));
    assert!(notes.is_empty(), "{notes:?}");
}

#[test]
fn part_names_are_sorted_and_sidecars_are_not_parts() {
    let files = ["part_2", "part_1.meta", "part_1"];
    let mut files: Vec<String> = files.iter().map(|name| name.to_string()).collect();
    assert_eq!(discover_part_names("shard_0", &files).unwrap(), ["part_1", "part_2"]);

    files.push("part_3.1.0.tmp".to_string());
    assert_eq!(
        discover_part_names("shard_0", &files).unwrap_err(),
        "shard_0/part_3.1.0.tmp is an uncommitted part; re-run the scatter phase before planning",
    );
}

#[test]
fn planning_nothing_at_all_is_refused() {
    let err = match finish_plan(vec![], 0, "work/state") {
        Ok(_) => panic!("nothing was planned and nothing skipped"),
        Err(message) => message,
    };
    assert!(err.contains("work/state"), "{err}");
    assert!(finish_plan(vec![], 3, "work/state").is_ok());
}

#[test]
fn a_part_without_a_count_is_refused() {
    let names = vec!["a".to_string(), "b".to_string()];
    match read_part_metas(names, &vec![Some(meta(1)), None]) {
        Ok(_) => panic!("the count of one part is missing"),
        Err(message) => assert_eq!(message, "a part's metadata was not read"),
    }
}

#[test]
fn plan_files_are_named_after_their_shard() {
    assert_eq!(ShardPlan::path_in(12), "plan/shard_12.json");
}

#[test]
fn planned_segments_are_never_merged() {
    for max_bytes in [1u64, 10, 63, 64, 65, 200] {
        for bytes_per_point in [1u64, 3, 7, 64] {
            let points_per_segment = (max_bytes / bytes_per_point).max(1);
            for total in 0..80 {
                let segments = group_into_segments(
                    &parts(&[total / 3, total - total / 3]),
                    points_per_segment,
                    bytes_per_point,
                    0,
                    "fp",
                );
                let sizes: Vec<u64> =
                    segments.iter().map(|segment| segment.vector_bytes).collect();
                assert!(
                    !merge_would_be_planned(&sizes, max_bytes),
                    "{total} points of {bytes_per_point} bytes under {max_bytes}: {sizes:?}",
                );
                let short = sizes.iter().filter(|size| **size < max_bytes.div_ceil(2)).count();
                assert!(short <= 1, "{sizes:?}");
                if bytes_per_point <= max_bytes {
                    assert!(sizes.iter().all(|size| *size <= max_bytes), "{sizes:?}");
                }
            }
        }
    }
}
