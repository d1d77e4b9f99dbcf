//! What the commands print.
use shard_builder::assemble::AssembleReport;
use shard_builder::building::{BuildRoute, BuildStats};
use shard_builder::config::{CollectionConfig, LoadedConfig, ShardingMethod, VectorParams};
use shard_builder::dense_codec::VectorStorageDatatype;
use shard_builder::names::NameMap;
use shard_builder::placement::{Assignment, InstallPlan, PlacementReport};
use shard_builder::plan::{bytes_per_point, PlanReport, SegmentPlan, ShardPlan};
use shard_builder::records::PointId;
use shard_builder::report::{
    assemble_lines, assembled_line, build_lines, build_result_lines, check_config_matches,
    check_placement, check_plans_found, check_scattered, extremes, install_plan_lines,
    nothing_to_verify, placement_lines, plan_head_lines, plan_lines, plan_segments, plan_warnings,
    projected_bytes, projection_hint, projection_lines, projection_warnings, resolve_concurrency,
    retarget_lines, scatter_head_lines, scatter_lines, scatter_verdict, scatter_verify_lines,
    shards_to_build, skew_lines, skew_warning, validate_lines, verify_config_lines, BuildSettings,
    FileFailure, ScatterReport, ScatterStats, ScatterVerdict, Skew,
};
use shard_builder::retarget::RetargetReport;

/// A loaded config with the given dense vectors and one sparse vector.
fn loaded(vectors: &[(&str, u64, Option<VectorStorageDatatype>)], shards: u32) -> LoadedConfig {
    let mut dense = NameMap::new();
    for (name, size, datatype) in vectors {
        dense.insert(name.to_string(), VectorParams { size: *size, datatype: *datatype });
    }
    let mut sparse_vectors = NameMap::new();
    sparse_vectors.insert("sparse".to_string(), ());
    LoadedConfig {
        config: CollectionConfig {
            shard_number: shards,
            sharding_method: Some(ShardingMethod::Auto),
            hash_ring_shard_scale: 100,
            vectors: dense,
            sparse_vectors,
            max_segment_size: Some(5_000_000),
            default_segment_number: 8,
            indexing_threshold_kb: 10_000,
            memmap_threshold_kb: u64::MAX,
            deferred_points_threshold_bytes: None,
            payload_storage_on_disk: true,
            dense_resolution: NameMap::new(),
            sparse_resolution: NameMap::new(),
        },
        fingerprint: "f".repeat(64),
        part_fingerprint: "a".repeat(64),
    }
}

/// The fixture of a large collection: 64 shards, and segments of up to 20 GiB.
fn large() -> LoadedConfig {
    let mut config = loaded(&[("dense", 768, None)], 64);
    config.config.max_segment_size = Some(20 * 1024 * 1024);
    config
}

#[test]
fn large_dataset_plans_many_segments_without_error() {
    let loaded = large();
    let (min_bytes, max_bytes) = loaded.target_segment_band_bytes().unwrap();
    let bytes_per_point = bytes_per_point(&loaded).unwrap();
    let fifty_tib = 50 * 1024_u64.pow(4);
    let points = fifty_tib / bytes_per_point;

    let projection = plan_segments(&loaded, points, fifty_tib, min_bytes, max_bytes);

    let per_shard = fifty_tib / 64;
    let segments = per_shard.div_ceil(max_bytes);
    assert_eq!(segments, 40);
    assert_eq!(projection.segments_per_shard, 40);
    assert!(
        segments > loaded.config.default_segment_number,
        "this case must exceed default_segment_number to be a meaningful test",
    );
    assert!(projection.many_segments && !projection.below_floor);

    let lines = projection_lines(&projection, "100.0", 8);
    assert_eq!(lines[1], "vector storage: 50.00 TiB");
    assert_eq!(lines[5], "segments_per_shard: 40");
    assert_eq!(lines[7], "floor headroom: 100.0%");
    assert!(lines[8].contains("exceeds default_segment_number (8)"), "{}", lines[8]);
    assert!(projection_warnings(&projection, "100.0", false, min_bytes).is_empty());
}

#[test]
fn tiny_shard_is_a_warning_not_an_error() {
    let loaded = large();
    let (min_bytes, max_bytes) = loaded.target_segment_band_bytes().unwrap();
    let projection = plan_segments(&loaded, 1000, 64 * 1024 * 1024, min_bytes, max_bytes);
    assert!(projection.below_floor);
    assert_eq!(projection.segments_per_shard, 1);
    let warnings = projection_warnings(&projection, "", true, min_bytes);
    assert_eq!(
        warnings,
        ["a shard holds 1.00 MiB which is below the 10.00 GiB merge-safe floor; build a single \
          segment per shard so there is no pair for the optimizer to merge"],
    );
    assert_eq!(projection_lines(&projection, "", 8).len(), 7, "no headroom is given");
}

#[test]
fn segments_close_to_the_floor_are_a_warning() {
    let mut loaded = large();
    loaded.config.shard_number = 1;
    let close = plan_segments(&loaded, 10, 1100, 500, 1000);
    assert_eq!((close.segments_per_shard, close.segment_size), (2, 550));
    assert_eq!(
        projection_warnings(&close, "10.0", true, 500),
        ["segments sit only 10.0% above the merge-safe floor (500 B); uneven partitions could drop \
          a segment below it and trigger a merge. Consider fewer, larger segments."],
    );
    let clear = plan_segments(&loaded, 10, 1200, 500, 1000);
    assert_eq!(clear.segment_size, 600);
    assert!(projection_warnings(&clear, "20.0", false, 500).is_empty());
}

#[test]
fn projections_are_counted_in_bytes() {
    assert_eq!(projected_bytes(10, 3072), Ok(30720));
    assert!(projected_bytes(u64::MAX, 2).is_err());
    assert!(projection_hint(1024).contains("Segments below 1.00 KiB would be merged"));
}

#[test]
fn a_validated_document_is_described() {
    let loaded = loaded(&[("dense", 768, None)], 4);
    let (min_bytes, max_bytes) = loaded.target_segment_band_bytes().unwrap();
    let lines = validate_lines("c.json", &loaded, Some(3), min_bytes, max_bytes, 3072);
    let full = "f".repeat(64);
    let part = "a".repeat(64);
    assert_eq!(
        lines,
        [
            "config: c.json",
            "payload indexes: 3 field(s) declared",
            &format!("fingerprint: {full}"),
            &format!("part fingerprint: {part}"),
            "shards: 4",
            "sharding_method: Auto",
            "hash_ring_shard_scale: 100 virtual nodes/shard",
            "max_segment_size: 4.77 GiB",
            "merge-safe segment band: 2.38 GiB .. 4.77 GiB",
            "bytes_per_point: 3072",
        ],
    );
    assert_eq!(validate_lines("c", &loaded, None, min_bytes, max_bytes, 1).len(), 9);
}

#[test]
fn skew_is_described_where_it_matters() {
    let mut skew = Skew {
        even_points: 100,
        largest_points: 113,
        smallest_points: 81,
        largest_gain: "+13.7",
        smallest_gain: "-19.1",
        excess: "13.7",
        uneven: true,
    };
    let lines = skew_lines(&skew, 1024);
    assert_eq!(lines[1], "  evenly:  100 points/shard, 100.00 KiB");
    assert_eq!(lines[2], "  largest: 113 points (+13.7%), 113.00 KiB");
    assert_eq!(lines[3], "  smallest: 81 points (-19.1%)");
    assert!(lines[4].contains("it holds 13.7% more than an even split"));
    skew.uneven = false;
    assert_eq!(skew_lines(&skew, u64::MAX).len(), 4);
}

// ----- Scatter -----

fn stats(failures: usize) -> ScatterStats {
    ScatterStats {
        files_processed: 5,
        files_skipped: 2,
        points: 900,
        parts_written: 12,
        temp_files_swept: 0,
        files_failed: (0..failures)
            .map(|n| FileFailure { path: format!("f{n}"), error: "bad".to_string() })
            .collect(),
    }
}

#[test]
fn a_scatter_run_is_reported() {
    assert_eq!(
        scatter_head_lines(3, 10, Some((1, 4)), 8, "fp"),
        ["input files: 3 of 10 (slice 1/4)", "shards: 8", "part fingerprint: fp"],
    );
    assert_eq!(
        scatter_head_lines(10, 10, None, 8, "fp"),
        ["input files: 10", "shards: 8", "part fingerprint: fp"],
    );
    assert_eq!(
        scatter_lines(&stats(0)),
        ["\nfiles_processed: 5", "files_skipped: 2", "points: 900", "parts_written: 12", "\nOK"],
    );
    assert!(check_scattered(&stats(0)).is_ok());
}

#[test]
fn files_that_could_not_be_read_are_listed_and_fail_the_run() {
    let lines = scatter_lines(&stats(12));
    assert_eq!(lines[4], "files_failed: 12");
    assert_eq!(lines[5], "  f0: bad");
    assert_eq!(lines[14], "  f9: bad");
    assert_eq!(lines[15], "  ... and 2 more");
    assert_eq!(lines.len(), 16, "and no OK");
    assert_eq!(scatter_lines(&stats(10)).len(), 15);
    let message = check_scattered(&stats(12)).unwrap_err();
    assert!(message.starts_with("12 input file(s) could not be read"), "{message}");
}

#[test]
fn a_scatter_check_is_reported() {
    let mut report = ScatterReport {
        parts: 4,
        parts_skipped: 0,
        points: 30,
        per_shard: vec![(0, 10), (1, 5), (3, 15)],
    };
    assert_eq!(scatter_verdict(&report), ScatterVerdict::Verified);
    assert_eq!(extremes(&report.per_shard), (5, 15));
    assert_eq!(
        scatter_verify_lines(&report, 4, "8"),
        [
            "parts: 4",
            "points: 30",
            "shards with data: 3 of 4",
            "points/shard: min 5, max 15, mean 8",
            "\nOK - every point is in the shard the hash ring chose",
        ],
    );
    report.points = 0;
    assert_eq!(scatter_verdict(&report), ScatterVerdict::NothingFound);
    report.parts_skipped = 4;
    assert_eq!(scatter_verdict(&report), ScatterVerdict::AlreadyVerified);
    assert_eq!(
        scatter_verify_lines(&report, 4, ""),
        [
            "parts: 4",
            "parts_skipped: 4 (already verified)",
            "points: 0",
            "\nOK - every part was already verified by an earlier run",
        ],
    );
    assert_eq!(extremes(&vec![]), (0, 0));
    assert_eq!(
        skew_warning(5, 11, "2.2"),
        "shard skew is 2.2x (min 5, max 11); the largest shard sets segment sizes and query tail \
         latency",
    );
    assert_eq!(nothing_to_verify("w"), "no points found under w; nothing to verify");
}

// ----- Plan and build -----

fn shard_plan(shard_id: u32, points: &[u64]) -> ShardPlan {
    ShardPlan {
        shard_id,
        config_fingerprint: "fp".to_string(),
        max_segment_size_bytes: 1000,
        merge_safe_min_bytes: 500,
        bytes_per_point: 1,
        points: points.iter().sum(),
        segments: points
            .iter()
            .enumerate()
            .map(|(seq, &points)| SegmentPlan {
                seq,
                uuid: 0,
                parts: vec![],
                points,
                vector_bytes: points,
            })
            .collect(),
    }
}

#[test]
fn a_plan_run_is_reported() {
    assert_eq!(
        plan_head_lines(4, 512, 1024),
        ["bytes_per_point: 4", "segment band: 512 B .. 1.00 KiB"],
    );
    let plans = vec![shard_plan(0, &[600, 700]), shard_plan(2, &[100, 200])];
    let warnings = plan_warnings(&plans);
    assert!(!warnings.is_empty());
    assert!(warnings.iter().all(|warning| warning.starts_with("shard 2: ")), "{warnings:?}");
    let report = PlanReport { plans, shards_skipped: 1 };
    assert_eq!(
        plan_lines(&report, "w/plan", 2),
        [
            "\nshards_skipped: 1 (already planned; pass --replan to redo them)",
            "\nshards planned: 2",
            "segments: 4",
            "points: 1600",
            "\nper shard:",
            "  shard 0: 2 segments, 1300 points, largest 700 B",
            "  shard 2: 2 segments, 300 points, largest 200 B",
            "\nplans written to w/plan",
            "2 warning(s) above - review before building",
            "\nOK",
        ],
    );
}

#[test]
fn a_build_run_is_reported() {
    let settings = BuildSettings {
        concurrency: 4,
        indexing_threads: Some(2),
        slice: Some((1, 3)),
        indexed_fields: Some(3),
        batch_points: 1000,
        route: BuildRoute::Bulk,
        staging: "/tmp/s".to_string(),
        dense_vectors: 1,
        sparse_vectors: 2,
        payload_columns: Some(vec!["url".to_string(), "a\"b".to_string()]),
        segments: 40,
        shards: 4,
    };
    assert_eq!(
        build_lines(&settings),
        [
            "concurrency: 4 segment builds",
            "indexing_threads: 2 per segment (CLI override; not recorded in artifacts)",
            "slice: 1/3 of 40 planned segments",
            "payload indexes: 3 field(s) built into each segment",
            "batch_points: 1000",
            "route: bulk (storages filled directly, indexes built once)",
            "staging: /tmp/s",
            "vectors: 1 dense, 2 sparse",
            "payload: 2 column(s) kept — [\"url\", \"a\\\"b\"]",
            "work: 40 segments across 4 shards",
        ],
    );
    let built = BuildStats { segments_built: 3, segments_skipped: 1, points: 99 };
    assert_eq!(
        build_result_lines("1.5s", "66", &built),
        [
            "\nelapsed: 1.5s  (66 points/s)",
            "\nsegments_built: 3",
            "segments_skipped: 1",
            "points: 99",
            "\nOK",
        ],
    );
    assert_eq!(resolve_concurrency(Some(3), 16), Ok(3));
    assert_eq!(resolve_concurrency(None, 16), Ok(8));
    assert!(resolve_concurrency(Some(0), 16).is_err());
    assert_eq!(shards_to_build(None, 3), vec![0, 1, 2]);
    assert_eq!(shards_to_build(Some(7), 3), vec![7]);
    assert!(check_plans_found(1, "w").is_ok());
    assert_eq!(
        check_plans_found(0, "w").unwrap_err(),
        "no plans found under w; run the plan phase first",
    );
}

// ----- Clusters and artifacts -----

#[test]
fn a_placement_check_is_reported() {
    let mut report = PlacementReport::new(2);
    report.shards_checked = 4;
    report.ids_checked = 40;
    let lines = placement_lines(&report, 3);
    assert_eq!(lines[0], "peers queried: 2 (from 3 url(s))");
    assert!(lines[3].starts_with("\nOK - "), "{lines:?}");
    assert!(check_placement(&report).is_ok());

    report.misplaced = (0..11).map(|n| (1, PointId::NumId(n))).collect();
    report.leaked = vec![(2, PointId::Uuid(0x550e8400_e29b_41d4_a716_446655440000))];
    let lines = placement_lines(&report, 3);
    assert!(lines[3].starts_with("\nMISPLACED - "), "{lines:?}");
    assert_eq!(lines[4], "  shard 1 should hold NumId(0)");
    assert_eq!(lines[14], "  ... and 1 more");
    assert!(lines[15].starts_with("\nLEAKED - "), "{lines:?}");
    assert_eq!(
        lines[16],
        "  shard 2 unexpectedly holds Uuid(550e8400-e29b-41d4-a716-446655440000)",
    );
    assert!(check_placement(&report).unwrap_err().starts_with("shard placement is wrong."));
}

#[test]
fn an_install_plan_is_reported() {
    let plan = InstallPlan {
        queried_peer: 9,
        placement: vec![Assignment { shard: 0, peer: 9, uri: "http://a".to_string() }],
    };
    let lines = install_plan_lines(&plan);
    assert_eq!(lines[0], "queried peer: 9");
    assert_eq!(lines[2], "  shard 0  ->  peer 9  http://a");
    assert_eq!(lines.len(), 4);
}

#[test]
fn a_retarget_run_is_reported() {
    let mut report = RetargetReport::new();
    report.shards = 1;
    report.segments_examined = 3;
    report.segments_rewritten = 2;
    report.changes = vec!["a: b".to_string()];
    assert_eq!(
        retarget_lines(&report, true),
        [
            "  a: b",
            "dry run: 1 shards, 3 segments examined, 2 would be rewritten (nothing was written)",
        ],
    );
    let lines = retarget_lines(&report, false);
    assert_eq!(lines[1], "retargeted: 1 shards, 3 segments examined, 2 rewritten");
    assert_eq!(lines.len(), 3);
}

#[test]
fn a_comparison_with_a_live_collection_is_reported() {
    let none = vec![];
    assert_eq!(
        verify_config_lines("c", "x", "x", &none)[3],
        "\nOK - config matches the live collection",
    );
    assert!(check_config_matches("x", "x", &none).is_ok());

    let some = vec!["m: 1 vs 2".to_string()];
    let lines = verify_config_lines("c", "x", "y", &some);
    assert_eq!(lines[4], "  m: 1 vs 2");
    assert_eq!(lines.len(), 5);
    assert!(check_config_matches("x", "y", &some).is_err());
    assert!(check_config_matches("x", "x", &some).is_err());
    assert!(verify_config_lines("c", "x", "y", &none)[4].starts_with("  (none named, but"));
}

#[test]
fn an_assemble_run_is_reported() {
    let report =
        AssembleReport { shard_id: 3, segments: 4, max_segment_version: 7, wal_base: 8 };
    assert_eq!(
        assembled_line(&report),
        "  shard 3: 4 segments, max version 7, wal base 8",
    );
    assert!(assemble_lines(Some(2))[1].starts_with("\nPayload field indexes: 2 field(s)"));
    assert!(assemble_lines(None)[1].starts_with("\nNote: no payload field indexes"));
    assert_eq!(assemble_lines(None)[2], "\nOK");
}
