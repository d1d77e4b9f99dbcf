//! What the commands print, line by line.
use vstd::prelude::*;
use vstd::string::*;
use crate::assemble::AssembleReport;
use crate::building;
use crate::building::{BuildRoute, BuildStats};
use crate::cli;
use crate::config;
use crate::config::LoadedConfig;
use crate::ids;
use crate::placement;
use crate::placement::{Assignment, InstallPlan, PlacementReport};
use crate::plan;
use crate::plan::{PlanReport, SegmentPlan, ShardPlan};
use crate::records::PointId;
use crate::retarget::RetargetReport;
use crate::text;

verus! {

/// No lines at all.
pub open spec fn no_lines() -> Seq<Seq<char>> {
    Seq::empty()
}

/// One line, or none.
pub open spec fn line_if(shown: bool, line: Seq<char>) -> Seq<Seq<char>> {
    if shown {
        seq![line]
    } else {
        Seq::empty()
    }
}

fn add_if(lines: &mut Vec<String>, shown: bool, line: String)
    ensures
        text::texts(final(lines)@) == text::texts(old(lines)@) + line_if(shown, line@),
{
    let ghost before = text::texts(lines@);
    let ghost said = line@;
    if shown {
        lines.push(line);
    }
    assert(text::texts(lines@) =~= before + line_if(shown, said));
}

/// The number that is given, or zero.
pub open spec fn or_zero(given: Option<usize>) -> usize {
    match given {
        Some(n) => n,
        None => 0,
    }
}

fn number_or_zero(given: Option<usize>) -> (n: usize)
    ensures
        n == or_zero(given),
{
    match given {
        Some(n) => n,
        None => 0,
    }
}

/// How many segments build at once, as given or by the number of cores.
pub fn resolve_concurrency(given: Option<usize>, cores: usize) -> (concurrency: Result<
    usize,
    String,
>)
    ensures
        match concurrency {
            Ok(concurrency) => match given {
                Some(n) => n > 0 && concurrency == n,
                None => concurrency == (if cores < building::OBSERVED_CORES_PER_BUILD {
                    1
                } else {
                    cores / building::OBSERVED_CORES_PER_BUILD
                }),
            },
            Err(message) => given == Some(0usize) && message@
                == "--concurrency must be at least 1"@,
        },
{
    match given {
        Some(n) => if n == 0 {
            Err("--concurrency must be at least 1".to_owned())
        } else {
            Ok(n)
        },
        None => Ok(building::default_concurrency(cores)),
    }
}

/// The shards whose plans are built: one, or all.
pub fn shards_to_build(shard: Option<u32>, shard_count: u32) -> (shards: Vec<u32>)
    ensures
        match shard {
            Some(shard) => shards@ == seq![shard],
            None => shards@ == plan::all_shards(shard_count as nat),
        },
{
    let mut shards: Vec<u32> = Vec::new();
    match shard {
        Some(shard) => {
            shards.push(shard);
            assert(shards@ =~= seq![shard]);
        },
        None => {
            let mut id: u32 = 0;
            while id < shard_count
                invariant
                    id <= shard_count,
                    shards@ == plan::all_shards(id as nat),
                decreases shard_count - id,
            {
                shards.push(id);
                assert(shards@ =~= plan::all_shards((id + 1) as nat));
                id = id + 1;
            }
        },
    }
    shards
}

/// A build without a plan cannot start.
pub fn check_plans_found(plans: usize, work: &str) -> (outcome: Result<(), String>)
    ensures
        match outcome {
            Ok(()) => plans > 0,
            Err(message) => plans == 0 && message@ == "no plans found under "@ + work@
                + "; run the plan phase first"@,
        },
{
    if plans == 0 {
        return Err(text::cat3("no plans found under ", work, "; run the plan phase first"));
    }
    Ok(())
}

/// What a build run is about to do.
#[derive(Debug)]
pub struct BuildSettings {
    pub concurrency: usize,
    pub indexing_threads: Option<usize>,
    pub slice: Option<(usize, usize)>,
    /// The number of payload indexes, where some are declared.
    pub indexed_fields: Option<usize>,
    pub batch_points: usize,
    pub route: BuildRoute,
    pub staging: String,
    pub dense_vectors: usize,
    pub sparse_vectors: usize,
    /// The payload columns that are kept, where there is a mapping.
    pub payload_columns: Option<Vec<String>>,
    pub segments: usize,
    pub shards: usize,
}

/// A route for a reader.
pub open spec fn route_text(route: BuildRoute) -> Seq<char> {
    match route {
        BuildRoute::Bulk => "bulk (storages filled directly, indexes built once)"@,
        BuildRoute::Edge => "edge (staging shard + optimizers)"@,
    }
}

fn route_name(route: BuildRoute) -> (name: &'static str)
    ensures
        name@ == route_text(route),
{
    match route {
        BuildRoute::Bulk => "bulk (storages filled directly, indexes built once)",
        BuildRoute::Edge => "edge (staging shard + optimizers)",
    }
}

/// The index and the total of a slice, or zeros.
pub open spec fn slice_of(slice: Option<(usize, usize)>) -> (usize, usize) {
    match slice {
        Some(slice) => slice,
        None => (0, 0),
    }
}

/// The payload columns that are kept.
pub open spec fn kept_columns(columns: Option<Vec<String>>) -> Seq<Seq<char>> {
    match columns {
        Some(columns) => text::texts(columns@),
        None => Seq::empty(),
    }
}

/// What a build run prints before it starts.
pub open spec fn build_lines_text(settings: BuildSettings) -> Seq<Seq<char>> {
    no_lines()
        + line_if(
            true,
            "concurrency: "@ + text::decimal_text(settings.concurrency as nat)
                + " segment builds"@,
        )
        + line_if(
            settings.indexing_threads is Some,
            "indexing_threads: "@
                + text::decimal_text(or_zero(settings.indexing_threads) as nat)
                + " per segment (CLI override; not recorded in artifacts)"@,
        )
        + line_if(
            settings.slice is Some,
            "slice: "@ + text::decimal_text(slice_of(settings.slice).0 as nat) + "/"@
                + text::decimal_text(slice_of(settings.slice).1 as nat) + " of "@
                + text::decimal_text(settings.segments as nat) + " planned segments"@,
        )
        + line_if(
            settings.indexed_fields is Some,
            "payload indexes: "@ + text::decimal_text(or_zero(settings.indexed_fields) as nat)
                + " field(s) built into each segment"@,
        )
        + line_if(true, "batch_points: "@ + text::decimal_text(settings.batch_points as nat))
        + line_if(true, "route: "@ + route_text(settings.route))
        + line_if(true, "staging: "@ + settings.staging@)
        + line_if(
            settings.payload_columns is Some,
            "vectors: "@ + text::decimal_text(settings.dense_vectors as nat) + " dense, "@
                + text::decimal_text(settings.sparse_vectors as nat) + " sparse"@,
        )
        + line_if(
            settings.payload_columns is Some,
            "payload: "@ + text::decimal_text(kept_columns(settings.payload_columns).len())
                + " column(s) kept \u{2014} "@
                + text::debug_texts(kept_columns(settings.payload_columns)),
        )
        + line_if(
            true,
            "work: "@ + text::decimal_text(settings.segments as nat) + " segments across "@
                + text::decimal_text(settings.shards as nat) + " shards"@,
        )
}

/// What a build run prints before it starts.
pub fn build_lines(settings: &BuildSettings) -> (lines: Vec<String>)
    ensures
        text::texts(lines@) == build_lines_text(*settings),
{
    let mut lines: Vec<String> = Vec::new();
    assert(text::texts(lines@) =~= no_lines());
    let threads: usize = number_or_zero(settings.indexing_threads);
    let fields: usize = number_or_zero(settings.indexed_fields);
    let (index, total): (usize, usize) = match settings.slice {
        Some(slice) => slice,
        None => (0, 0),
    };
    let (count, columns): (usize, String) = match &settings.payload_columns {
        Some(columns) => {
            assert(text::texts(columns@).len() == columns@.len());
            (columns.len(), text::debug_list(columns))
        },
        None => {
            let none: Vec<String> = Vec::new();
            assert(text::texts(none@) =~= Seq::empty());
            (0, text::debug_list(&none))
        },
    };
    add_if(
        &mut lines,
        true,
        text::cat3(
            "concurrency: ",
            text::decimal(settings.concurrency as u128).as_str(),
            " segment builds",
        ),
    );
    add_if(
        &mut lines,
        settings.indexing_threads.is_some(),
        text::cat3(
            "indexing_threads: ",
            text::decimal(threads as u128).as_str(),
            " per segment (CLI override; not recorded in artifacts)",
        ),
    );
    add_if(
        &mut lines,
        settings.slice.is_some(),
        text::cat7(
            "slice: ",
            text::decimal(index as u128).as_str(),
            "/",
            text::decimal(total as u128).as_str(),
            " of ",
            text::decimal(settings.segments as u128).as_str(),
            " planned segments",
        ),
    );
    add_if(
        &mut lines,
        settings.indexed_fields.is_some(),
        text::cat3(
            "payload indexes: ",
            text::decimal(fields as u128).as_str(),
            " field(s) built into each segment",
        ),
    );
    add_if(
        &mut lines,
        true,
        text::cat2("batch_points: ", text::decimal(settings.batch_points as u128).as_str()),
    );
    add_if(&mut lines, true, text::cat2("route: ", route_name(settings.route)));
    add_if(&mut lines, true, text::cat2("staging: ", settings.staging.as_str()));
    add_if(
        &mut lines,
        settings.payload_columns.is_some(),
        text::cat5(
            "vectors: ",
            text::decimal(settings.dense_vectors as u128).as_str(),
            " dense, ",
            text::decimal(settings.sparse_vectors as u128).as_str(),
            " sparse",
        ),
    );
    add_if(
        &mut lines,
        settings.payload_columns.is_some(),
        text::cat4(
            "payload: ",
            text::decimal(count as u128).as_str(),
            " column(s) kept \u{2014} ",
            columns.as_str(),
        ),
    );
    add_if(
        &mut lines,
        true,
        text::cat5(
            "work: ",
            text::decimal(settings.segments as u128).as_str(),
            " segments across ",
            text::decimal(settings.shards as u128).as_str(),
            " shards",
        ),
    );
    lines
}

/// What a build run prints when it is done.
pub open spec fn build_result_lines_text(
    elapsed: Seq<char>,
    rate: Seq<char>,
    stats: BuildStats,
) -> Seq<Seq<char>> {
    no_lines()
        + line_if(true, "\nelapsed: "@ + elapsed + "  ("@ + rate + " points/s)"@)
        + line_if(true, "\nsegments_built: "@ + text::decimal_text(stats.segments_built as nat))
        + line_if(
            true,
            "segments_skipped: "@ + text::decimal_text(stats.segments_skipped as nat),
        )
        + line_if(true, "points: "@ + text::decimal_text(stats.points as nat))
        + line_if(true, "\nOK"@)
}

/// What a build run prints when it is done. The time that it took and the points per second are
/// computed in floating point.
pub fn build_result_lines(elapsed: &str, rate: &str, stats: &BuildStats) -> (lines: Vec<String>)
    ensures
        text::texts(lines@) == build_result_lines_text(elapsed@, rate@, *stats),
{
    let mut lines: Vec<String> = Vec::new();
    assert(text::texts(lines@) =~= no_lines());
    add_if(&mut lines, true, text::cat5("\nelapsed: ", elapsed, "  (", rate, " points/s)"));
    add_if(
        &mut lines,
        true,
        text::cat2("\nsegments_built: ", text::decimal(stats.segments_built as u128).as_str()),
    );
    add_if(
        &mut lines,
        true,
        text::cat2("segments_skipped: ", text::decimal(stats.segments_skipped as u128).as_str()),
    );
    add_if(
        &mut lines,
        true,
        text::cat2("points: ", text::decimal(stats.points as u128).as_str()),
    );
    add_if(&mut lines, true, "\nOK".to_owned());
    lines
}

/// What a plan run prints before it starts.
pub open spec fn plan_head_lines_text(
    bytes_per_point: u64,
    min_bytes: u64,
    max_bytes: u64,
) -> Seq<Seq<char>> {
    no_lines()
        + line_if(true, "bytes_per_point: "@ + text::decimal_text(bytes_per_point as nat))
        + line_if(
            true,
            "segment band: "@ + cli::human_text(min_bytes as nat) + " .. "@
                + cli::human_text(max_bytes as nat),
        )
}

/// What a plan run prints before it starts.
pub fn plan_head_lines(
    bytes_per_point: u64,
    min_bytes: u64,
    max_bytes: u64,
) -> (lines: Vec<String>)
    ensures
        text::texts(lines@) == plan_head_lines_text(bytes_per_point, min_bytes, max_bytes),
{
    let mut lines: Vec<String> = Vec::new();
    assert(text::texts(lines@) =~= no_lines());
    add_if(
        &mut lines,
        true,
        text::cat2("bytes_per_point: ", text::decimal(bytes_per_point as u128).as_str()),
    );
    add_if(
        &mut lines,
        true,
        text::cat4(
            "segment band: ",
            cli::human_bytes(min_bytes).as_str(),
            " .. ",
            cli::human_bytes(max_bytes).as_str(),
        ),
    );
    lines
}

/// The points of the plans together.
pub open spec fn planned_points(plans: Seq<ShardPlan>) -> nat
    decreases plans.len(),
{
    if plans.len() == 0 {
        0
    } else {
        planned_points(plans.drop_last()) + plans.last().points as nat
    }
}

/// The segments of the plans together.
pub open spec fn planned_segments(plans: Seq<ShardPlan>) -> nat
    decreases plans.len(),
{
    if plans.len() == 0 {
        0
    } else {
        planned_segments(plans.drop_last()) + plans.last().segments@.len()
    }
}

/// The size of the largest segment, or zero.
pub open spec fn largest_segment(segments: Seq<SegmentPlan>) -> u64
    decreases segments.len(),
{
    if segments.len() == 0 {
        0
    } else {
        let front = largest_segment(segments.drop_last());
        if segments.last().vector_bytes > front {
            segments.last().vector_bytes
        } else {
            front
        }
    }
}

fn find_largest(segments: &Vec<SegmentPlan>) -> (largest: u64)
    ensures
        largest == largest_segment(segments@),
{
    let mut largest: u64 = 0;
    let mut i: usize = 0;
    assert(segments@.take(0) =~= Seq::empty());
    while i < segments.len()
        invariant
            i <= segments.len(),
            largest == largest_segment(segments@.take(i as int)),
        decreases segments.len() - i,
    {
        assert(segments@.take(i + 1).drop_last() =~= segments@.take(i as int));
        if segments[i].vector_bytes > largest {
            largest = segments[i].vector_bytes;
        }
        i = i + 1;
    }
    assert(segments@.take(segments@.len() as int) =~= segments@);
    largest
}

/// The line on one planned shard.
pub open spec fn shard_line(plan: ShardPlan) -> Seq<char> {
    "  shard "@ + text::decimal_text(plan.shard_id as nat) + ": "@ + text::decimal_text(
        plan.segments@.len(),
    ) + " segments, "@ + text::decimal_text(plan.points as nat) + (" points, largest "@
        + cli::human_text(largest_segment(plan.segments@) as nat))
}

/// The lines on the planned shards.
pub open spec fn shard_lines(plans: Seq<ShardPlan>) -> Seq<Seq<char>>
    decreases plans.len(),
{
    if plans.len() == 0 {
        Seq::empty()
    } else {
        shard_lines(plans.drop_last()).push(shard_line(plans.last()))
    }
}

/// The notes of a plan, each with its shard.
pub open spec fn labelled_notes(shard: u32, notes: Seq<Seq<char>>) -> Seq<Seq<char>> {
    Seq::new(
        notes.len(),
        |i: int| "shard "@ + text::decimal_text(shard as nat) + ": "@ + notes[i],
    )
}

/// The warnings about all plans.
pub open spec fn warning_lines(plans: Seq<ShardPlan>) -> Seq<Seq<char>>
    decreases plans.len(),
{
    if plans.len() == 0 {
        Seq::empty()
    } else {
        warning_lines(plans.drop_last()) + labelled_notes(
            plans.last().shard_id,
            plan::review_notes(plans.last()),
        )
    }
}

/// The warnings about all plans, to be reviewed before building.
pub fn plan_warnings(plans: &Vec<ShardPlan>) -> (warnings: Vec<String>)
    ensures
        text::texts(warnings@) == warning_lines(plans@),
{
    let mut warnings: Vec<String> = Vec::new();
    let mut p: usize = 0;
    assert(plans@.take(0) =~= Seq::empty());
    assert(text::texts(warnings@) =~= Seq::empty());
    while p < plans.len()
        invariant
            p <= plans.len(),
            text::texts(warnings@) == warning_lines(plans@.take(p as int)),
        decreases plans.len() - p,
    {
        assert(plans@.take(p + 1).drop_last() =~= plans@.take(p as int));
        let ghost before = text::texts(warnings@);
        let notes = plan::review(&plans[p]);
        let shard: u32 = plans[p].shard_id;
        let ghost labelled = labelled_notes(shard, text::texts(notes@));
        let mut i: usize = 0;
        assert(before + labelled.take(0) =~= before);
        while i < notes.len()
            invariant
                i <= notes.len(),
                labelled == labelled_notes(shard, text::texts(notes@)),
                text::texts(warnings@) == before + labelled.take(i as int),
            decreases notes.len() - i,
        {
            let line = text::cat4(
                "shard ",
                text::decimal(shard as u128).as_str(),
                ": ",
                notes[i].as_str(),
            );
            let ghost was = text::texts(warnings@);
            let ghost said = line@;
            warnings.push(line);
            assert(said == labelled[i as int]);
            assert(text::texts(warnings@) =~= was.push(said));
            assert(text::texts(warnings@) =~= before + labelled.take(i + 1));
            i = i + 1;
        }
        assert(labelled.take(labelled.len() as int) =~= labelled);
        p = p + 1;
    }
    assert(plans@.take(plans@.len() as int) =~= plans@);
    warnings
}

fn add_shards(lines: &mut Vec<String>, plans: &Vec<ShardPlan>)
    ensures
        text::texts(final(lines)@) == text::texts(old(lines)@) + shard_lines(plans@),
{
    let ghost before = text::texts(lines@);
    let mut p: usize = 0;
    assert(plans@.take(0) =~= Seq::empty());
    assert(before + shard_lines(plans@.take(0)) =~= before);
    while p < plans.len()
        invariant
            p <= plans.len(),
            text::texts(lines@) == before + shard_lines(plans@.take(p as int)),
        decreases plans.len() - p,
    {
        assert(plans@.take(p + 1).drop_last() =~= plans@.take(p as int));
        let plan = &plans[p];
        let tail = text::cat2(
            " points, largest ",
            cli::human_bytes(find_largest(&plan.segments)).as_str(),
        );
        let line = text::cat7(
            "  shard ",
            text::decimal(plan.shard_id as u128).as_str(),
            ": ",
            text::decimal(plan.segments.len() as u128).as_str(),
            " segments, ",
            text::decimal(plan.points as u128).as_str(),
            tail.as_str(),
        );
        let ghost was = text::texts(lines@);
        let ghost said = line@;
        lines.push(line);
        assert(text::texts(lines@) =~= was.push(said));
        assert(text::texts(lines@) =~= before + shard_lines(plans@.take(p + 1)));
        p = p + 1;
    }
    assert(plans@.take(plans@.len() as int) =~= plans@);
}

fn count_planned(plans: &Vec<ShardPlan>) -> (counts: (u128, u128))
    requires
        planned_points(plans@) <= u128::MAX,
        planned_segments(plans@) <= u128::MAX,
    ensures
        counts.0 == planned_points(plans@),
        counts.1 == planned_segments(plans@),
{
    let mut points: u128 = 0;
    let mut segments: u128 = 0;
    let mut p: usize = 0;
    assert(plans@.take(0) =~= Seq::empty());
    while p < plans.len()
        invariant
            p <= plans.len(),
            planned_points(plans@) <= u128::MAX,
            planned_segments(plans@) <= u128::MAX,
            points == planned_points(plans@.take(p as int)),
            segments == planned_segments(plans@.take(p as int)),
        decreases plans.len() - p,
    {
        assert(plans@.take(p + 1).drop_last() =~= plans@.take(p as int));
        proof {
            lemma_planned_grow(plans@, p + 1);
        }
        points = points + plans[p].points as u128;
        segments = segments + plans[p].segments.len() as u128;
        p = p + 1;
    }
    assert(plans@.take(plans@.len() as int) =~= plans@);
    (points, segments)
}

/// The first plans hold no more than all.
proof fn lemma_planned_grow(plans: Seq<ShardPlan>, n: int)
    requires
        0 <= n <= plans.len(),
    ensures
        planned_points(plans.take(n)) <= planned_points(plans),
        planned_segments(plans.take(n)) <= planned_segments(plans),
    decreases plans.len(),
{
    if n == plans.len() {
        assert(plans.take(n) =~= plans);
    } else {
        lemma_planned_grow(plans.drop_last(), n);
        assert(plans.drop_last().take(n) =~= plans.take(n));
    }
}

/// What a plan run prints when it is done.
pub open spec fn plan_lines_text(
    report: PlanReport,
    dir: Seq<char>,
    warnings: usize,
) -> Seq<Seq<char>> {
    no_lines()
        + line_if(
            report.shards_skipped > 0,
            "\nshards_skipped: "@ + text::decimal_text(report.shards_skipped as nat)
                + " (already planned; pass --replan to redo them)"@,
        )
        + line_if(true, "\nshards planned: "@ + text::decimal_text(report.plans@.len()))
        + line_if(true, "segments: "@ + text::decimal_text(planned_segments(report.plans@)))
        + line_if(true, "points: "@ + text::decimal_text(planned_points(report.plans@)))
        + line_if(true, "\nper shard:"@) + shard_lines(report.plans@)
        + line_if(true, "\nplans written to "@ + dir)
        + line_if(
            warnings > 0,
            text::decimal_text(warnings as nat) + " warning(s) above - review before building"@,
        )
        + line_if(true, "\nOK"@)
}

/// What a plan run prints when it is done: what it planned, shard by shard, and whether there is
/// something to review. `dir` is the plan directory.
pub fn plan_lines(report: &PlanReport, dir: &str, warnings: usize) -> (lines: Vec<String>)
    requires
        planned_points(report.plans@) <= u64::MAX,
        planned_segments(report.plans@) <= u64::MAX,
    ensures
        text::texts(lines@) == plan_lines_text(*report, dir@, warnings),
{
    let mut lines: Vec<String> = Vec::new();
    assert(text::texts(lines@) =~= no_lines());
    let (points, segments): (u128, u128) = count_planned(&report.plans);
    let skipped: usize = report.shards_skipped;
    add_if(
        &mut lines,
        skipped > 0,
        text::cat3(
            "\nshards_skipped: ",
            text::decimal(skipped as u128).as_str(),
            " (already planned; pass --replan to redo them)",
        ),
    );
    add_if(
        &mut lines,
        true,
        text::cat2("\nshards planned: ", text::decimal(report.plans.len() as u128).as_str()),
    );
    add_if(&mut lines, true, text::cat2("segments: ", text::decimal(segments).as_str()));
    add_if(&mut lines, true, text::cat2("points: ", text::decimal(points).as_str()));
    add_if(&mut lines, true, "\nper shard:".to_owned());
    add_shards(&mut lines, &report.plans);
    add_if(&mut lines, true, text::cat2("\nplans written to ", dir));
    add_if(
        &mut lines,
        warnings > 0,
        text::cat2(
            text::decimal(warnings as u128).as_str(),
            " warning(s) above - review before building",
        ),
    );
    add_if(&mut lines, true, "\nOK".to_owned());
    lines
}

/// An input file that could not be read.
#[derive(Debug)]
pub struct FileFailure {
    pub path: String,
    pub error: String,
}

/// Outcome of a scatter run.
#[derive(Debug)]
pub struct ScatterStats {
    pub files_processed: u64,
    pub files_skipped: u64,
    pub points: u64,
    pub parts_written: u64,
    pub temp_files_swept: u64,
    pub files_failed: Vec<FileFailure>,
}

/// How many entries a list in a report shows.
pub const SHOWN: usize = 10;

/// The lines on the files that could not be read, as far as a report shows them.
pub open spec fn failure_lines(failures: Seq<FileFailure>, shown: nat) -> Seq<Seq<char>>
    decreases shown,
{
    if shown == 0 {
        Seq::empty()
    } else {
        let front = failure_lines(failures, (shown - 1) as nat);
        if shown <= failures.len() {
            front.push("  "@ + failures[shown - 1].path@ + ": "@ + failures[shown - 1].error@)
        } else {
            front
        }
    }
}

fn add_failures(lines: &mut Vec<String>, failures: &Vec<FileFailure>)
    ensures
        text::texts(final(lines)@) == text::texts(old(lines)@) + failure_lines(
            failures@,
            SHOWN as nat,
        ),
{
    let ghost before = text::texts(lines@);
    let mut i: usize = 0;
    assert(before + failure_lines(failures@, 0) =~= before);
    while i < SHOWN
        invariant
            i <= SHOWN,
            text::texts(lines@) == before + failure_lines(failures@, i as nat),
        decreases SHOWN - i,
    {
        if i < failures.len() {
            let line = text::cat4(
                "  ",
                failures[i].path.as_str(),
                ": ",
                failures[i].error.as_str(),
            );
            let ghost was = text::texts(lines@);
            let ghost said = line@;
            lines.push(line);
            assert(text::texts(lines@) =~= was.push(said));
        }
        assert(text::texts(lines@) =~= before + failure_lines(failures@, (i + 1) as nat));
        i = i + 1;
    }
}

/// How many entries of a list a report does not show.
pub open spec fn unshown(entries: nat) -> nat {
    if entries > SHOWN {
        (entries - SHOWN) as nat
    } else {
        0
    }
}

fn not_shown(entries: usize) -> (n: usize)
    ensures
        n == unshown(entries as nat),
{
    if entries > SHOWN {
        entries - SHOWN
    } else {
        0
    }
}

/// What a scatter run prints before it starts.
pub open spec fn scatter_head_lines_text(
    mine: usize,
    discovered: usize,
    slice: Option<(usize, usize)>,
    shards: u32,
    part_fingerprint: Seq<char>,
) -> Seq<Seq<char>> {
    no_lines()
        + line_if(
            slice is Some,
            "input files: "@ + text::decimal_text(mine as nat) + " of "@
                + text::decimal_text(discovered as nat) + " (slice "@
                + text::decimal_text(slice_of(slice).0 as nat)
                + ("/"@ + text::decimal_text(slice_of(slice).1 as nat) + ")"@),
        )
        + line_if(slice is None, "input files: "@ + text::decimal_text(discovered as nat))
        + line_if(true, "shards: "@ + text::decimal_text(shards as nat))
        + line_if(true, "part fingerprint: "@ + part_fingerprint)
}

/// What a scatter run prints before it starts: how much of the input is its share.
pub fn scatter_head_lines(
    mine: usize,
    discovered: usize,
    slice: Option<(usize, usize)>,
    shards: u32,
    part_fingerprint: &str,
) -> (lines: Vec<String>)
    ensures
        text::texts(lines@) == scatter_head_lines_text(mine, discovered, slice, shards, part_fingerprint@),
{
    let mut lines: Vec<String> = Vec::new();
    assert(text::texts(lines@) =~= no_lines());
    let (index, total): (usize, usize) = match slice {
        Some(slice) => slice,
        None => (0, 0),
    };
    add_if(
        &mut lines,
        slice.is_some(),
        text::cat7(
            "input files: ",
            text::decimal(mine as u128).as_str(),
            " of ",
            text::decimal(discovered as u128).as_str(),
            " (slice ",
            text::decimal(index as u128).as_str(),
            text::cat3("/", text::decimal(total as u128).as_str(), ")").as_str(),
        ),
    );
    add_if(
        &mut lines,
        slice.is_none(),
        text::cat2("input files: ", text::decimal(discovered as u128).as_str()),
    );
    add_if(&mut lines, true, text::cat2("shards: ", text::decimal(shards as u128).as_str()));
    add_if(&mut lines, true, text::cat2("part fingerprint: ", part_fingerprint));
    lines
}

/// What a scatter run prints when it is done.
pub open spec fn scatter_lines_text(stats: ScatterStats) -> Seq<Seq<char>> {
    no_lines()
        + line_if(
            true,
            "\nfiles_processed: "@ + text::decimal_text(stats.files_processed as nat),
        )
        + line_if(true, "files_skipped: "@ + text::decimal_text(stats.files_skipped as nat))
        + line_if(true, "points: "@ + text::decimal_text(stats.points as nat))
        + line_if(true, "parts_written: "@ + text::decimal_text(stats.parts_written as nat))
        + line_if(
            stats.temp_files_swept > 0,
            "temp_files_swept: "@ + text::decimal_text(stats.temp_files_swept as nat),
        )
        + line_if(
            stats.files_failed@.len() > 0,
            "files_failed: "@ + text::decimal_text(stats.files_failed@.len()),
        ) + failure_lines(stats.files_failed@, SHOWN as nat)
        + line_if(
            stats.files_failed@.len() > SHOWN,
            "  ... and "@ + text::decimal_text(unshown(stats.files_failed@.len())) + " more"@,
        )
        + line_if(stats.files_failed@.len() == 0, "\nOK"@)
}

/// What a scatter run prints when it is done. The closing word is kept back where a file could not
/// be read.
pub fn scatter_lines(stats: &ScatterStats) -> (lines: Vec<String>)
    ensures
        text::texts(lines@) == scatter_lines_text(*stats),
{
    let mut lines: Vec<String> = Vec::new();
    assert(text::texts(lines@) =~= no_lines());
    let failed: usize = stats.files_failed.len();
    add_if(
        &mut lines,
        true,
        text::cat2("\nfiles_processed: ", text::decimal(stats.files_processed as u128).as_str()),
    );
    add_if(
        &mut lines,
        true,
        text::cat2("files_skipped: ", text::decimal(stats.files_skipped as u128).as_str()),
    );
    add_if(
        &mut lines,
        true,
        text::cat2("points: ", text::decimal(stats.points as u128).as_str()),
    );
    add_if(
        &mut lines,
        true,
        text::cat2("parts_written: ", text::decimal(stats.parts_written as u128).as_str()),
    );
    add_if(
        &mut lines,
        stats.temp_files_swept > 0,
        text::cat2("temp_files_swept: ", text::decimal(stats.temp_files_swept as u128).as_str()),
    );
    add_if(
        &mut lines,
        failed > 0,
        text::cat2("files_failed: ", text::decimal(failed as u128).as_str()),
    );
    add_failures(&mut lines, &stats.files_failed);
    add_if(
        &mut lines,
        failed > SHOWN,
        text::cat3("  ... and ", text::decimal(not_shown(failed) as u128).as_str(), " more"),
    );
    add_if(&mut lines, failed == 0, "\nOK".to_owned());
    lines
}

/// A scatter run that left files out is a failure, once everything else is scattered: a short
/// collection must not look like a whole one.
pub fn check_scattered(stats: &ScatterStats) -> (outcome: Result<(), String>)
    ensures
        match outcome {
            Ok(()) => stats.files_failed@.len() == 0,
            Err(message) => stats.files_failed@.len() > 0 && message@ == text::decimal_text(
                stats.files_failed@.len(),
            )
                + " input file(s) could not be read and were skipped; their points are NOT in the output. Fix or remove them and re-run this slice \u{2014} finished files are skipped.\n\nIf they are not meant to be input at all, pass --input-format to exclude them."@,
        },
{
    if stats.files_failed.len() > 0 {
        return Err(
            text::cat2(
                text::decimal(stats.files_failed.len() as u128).as_str(),
                " input file(s) could not be read and were skipped; their points are NOT in the output. Fix or remove them and re-run this slice \u{2014} finished files are skipped.\n\nIf they are not meant to be input at all, pass --input-format to exclude them.",
            ),
        );
    }
    Ok(())
}

/// What a pass over the scatter output found.
#[derive(Debug)]
pub struct ScatterReport {
    pub parts: u64,
    pub parts_skipped: u64,
    pub points: u64,
    /// The points of each shard that has some, in the order of the shards.
    pub per_shard: Vec<(u32, u64)>,
}

/// How a pass over the scatter output ends.
#[derive(Debug, Clone, Copy, PartialEq, Eq, Structural)]
pub enum ScatterVerdict {
    /// Every part had been verified before.
    AlreadyVerified,
    /// There was nothing to verify.
    NothingFound,
    /// Every point is where it belongs.
    Verified,
}

/// How a pass over the scatter output ends.
pub fn scatter_verdict(report: &ScatterReport) -> (verdict: ScatterVerdict)
    ensures
        verdict == (if report.points > 0 {
            ScatterVerdict::Verified
        } else if report.parts_skipped > 0 {
            ScatterVerdict::AlreadyVerified
        } else {
            ScatterVerdict::NothingFound
        }),
{
    if report.points > 0 {
        ScatterVerdict::Verified
    } else if report.parts_skipped > 0 {
        ScatterVerdict::AlreadyVerified
    } else {
        ScatterVerdict::NothingFound
    }
}

/// What is said where there is nothing to verify.
pub fn nothing_to_verify(work: &str) -> (message: String)
    ensures
        message@ == "no points found under "@ + work@ + "; nothing to verify"@,
{
    text::cat3("no points found under ", work, "; nothing to verify")
}

/// The fewest points of a shard, or zero where no shard has any.
pub open spec fn fewest(per_shard: Seq<(u32, u64)>) -> u64
    decreases per_shard.len(),
{
    if per_shard.len() == 0 {
        0
    } else if per_shard.len() == 1 || per_shard.last().1 < fewest(per_shard.drop_last()) {
        per_shard.last().1
    } else {
        fewest(per_shard.drop_last())
    }
}

/// The most points of a shard, or zero where no shard has any.
pub open spec fn most(per_shard: Seq<(u32, u64)>) -> u64
    decreases per_shard.len(),
{
    if per_shard.len() == 0 {
        0
    } else if per_shard.last().1 > most(per_shard.drop_last()) {
        per_shard.last().1
    } else {
        most(per_shard.drop_last())
    }
}

/// The fewest and the most points of a shard.
pub fn extremes(per_shard: &Vec<(u32, u64)>) -> (found: (u64, u64))
    ensures
        found.0 == fewest(per_shard@),
        found.1 == most(per_shard@),
{
    let mut min: u64 = 0;
    let mut max: u64 = 0;
    let mut i: usize = 0;
    assert(per_shard@.take(0) =~= Seq::empty());
    while i < per_shard.len()
        invariant
            i <= per_shard.len(),
            min == fewest(per_shard@.take(i as int)),
            max == most(per_shard@.take(i as int)),
        decreases per_shard.len() - i,
    {
        assert(per_shard@.take(i + 1).drop_last() =~= per_shard@.take(i as int));
        let points: u64 = per_shard[i].1;
        if i == 0 || points < min {
            min = points;
        }
        if points > max {
            max = points;
        }
        i = i + 1;
    }
    assert(per_shard@.take(per_shard@.len() as int) =~= per_shard@);
    (min, max)
}

/// What is said of shards that hold unlike numbers of points. `ratio` is how many times the smallest
/// the largest holds, as it is printed.
pub fn skew_warning(min: u64, max: u64, ratio: &str) -> (line: String)
    ensures
        line@ == "shard skew is "@ + ratio@ + "x (min "@ + text::decimal_text(min as nat)
            + ", max "@ + text::decimal_text(max as nat)
            + "); the largest shard sets segment sizes and query tail latency"@,
{
    text::cat7(
        "shard skew is ",
        ratio,
        "x (min ",
        text::decimal(min as u128).as_str(),
        ", max ",
        text::decimal(max as u128).as_str(),
        "); the largest shard sets segment sizes and query tail latency",
    )
}

/// How thoroughly parts are verified, for a reader.
pub open spec fn mode_text(deep: bool) -> Seq<char> {
    if deep {
        "deep (every record read)"@
    } else {
        "metadata (header + recorded length per part)"@
    }
}

/// How thoroughly parts are verified, for a reader.
pub fn mode_name(deep: bool) -> (name: &'static str)
    ensures
        name@ == mode_text(deep),
{
    if deep {
        "deep (every record read)"
    } else {
        "metadata (header + recorded length per part)"
    }
}

/// What a pass over the scatter output prints.
pub open spec fn scatter_verify_lines_text(
    report: ScatterReport,
    shards: u32,
    mean: Seq<char>,
) -> Seq<Seq<char>> {
    no_lines()
        + line_if(true, "parts: "@ + text::decimal_text(report.parts as nat))
        + line_if(
            report.parts_skipped > 0,
            "parts_skipped: "@ + text::decimal_text(report.parts_skipped as nat)
                + " (already verified)"@,
        )
        + line_if(true, "points: "@ + text::decimal_text(report.points as nat))
        + line_if(
            report.points == 0 && report.parts_skipped > 0,
            "\nOK - every part was already verified by an earlier run"@,
        )
        + line_if(
            report.points > 0,
            "shards with data: "@ + text::decimal_text(report.per_shard@.len()) + " of "@
                + text::decimal_text(shards as nat),
        )
        + line_if(
            report.points > 0,
            "points/shard: min "@ + text::decimal_text(fewest(report.per_shard@) as nat)
                + ", max "@ + text::decimal_text(most(report.per_shard@) as nat) + ", mean "@ + mean,
        )
        + line_if(report.points > 0, "\nOK - every point is in the shard the hash ring chose"@)
}

/// What a pass over the scatter output prints. The mean number of points per shard is computed in
/// floating point.
pub fn scatter_verify_lines(
    report: &ScatterReport,
    shards: u32,
    mean: &str,
) -> (lines: Vec<String>)
    ensures
        text::texts(lines@) == scatter_verify_lines_text(*report, shards, mean@),
{
    let mut lines: Vec<String> = Vec::new();
    assert(text::texts(lines@) =~= no_lines());
    let (min, max): (u64, u64) = extremes(&report.per_shard);
    add_if(
        &mut lines,
        true,
        text::cat2("parts: ", text::decimal(report.parts as u128).as_str()),
    );
    add_if(
        &mut lines,
        report.parts_skipped > 0,
        text::cat3(
            "parts_skipped: ",
            text::decimal(report.parts_skipped as u128).as_str(),
            " (already verified)",
        ),
    );
    add_if(
        &mut lines,
        true,
        text::cat2("points: ", text::decimal(report.points as u128).as_str()),
    );
    add_if(
        &mut lines,
        report.points == 0 && report.parts_skipped > 0,
        "\nOK - every part was already verified by an earlier run".to_owned(),
    );
    add_if(
        &mut lines,
        report.points > 0,
        text::cat4(
            "shards with data: ",
            text::decimal(report.per_shard.len() as u128).as_str(),
            " of ",
            text::decimal(shards as u128).as_str(),
        ),
    );
    add_if(
        &mut lines,
        report.points > 0,
        text::cat6(
            "points/shard: min ",
            text::decimal(min as u128).as_str(),
            ", max ",
            text::decimal(max as u128).as_str(),
            ", mean ",
            mean,
        ),
    );
    add_if(
        &mut lines,
        report.points > 0,
        "\nOK - every point is in the shard the hash ring chose".to_owned(),
    );
    lines
}

/// What validating a document prints.
pub open spec fn validate_lines_text(
    path: Seq<char>,
    loaded: LoadedConfig,
    indexed_fields: Option<usize>,
    min_bytes: u64,
    max_bytes: u64,
    bytes_per_point: u64,
) -> Seq<Seq<char>> {
    no_lines()
        + line_if(true, "config: "@ + path)
        + line_if(
            indexed_fields is Some,
            "payload indexes: "@ + text::decimal_text(or_zero(indexed_fields) as nat)
                + " field(s) declared"@,
        )
        + line_if(true, "fingerprint: "@ + loaded.fingerprint@)
        + line_if(true, "part fingerprint: "@ + loaded.part_fingerprint@)
        + line_if(true, "shards: "@ + text::decimal_text(loaded.config.shard_number as nat))
        + line_if(
            true,
            "sharding_method: "@
                + config::sharding_text(config::sharding_of(loaded.config.sharding_method)),
        )
        + line_if(
            true,
            "hash_ring_shard_scale: "@
                + text::decimal_text(loaded.config.hash_ring_shard_scale as nat)
                + " virtual nodes/shard"@,
        )
        + line_if(true, "max_segment_size: "@ + cli::human_text(max_bytes as nat))
        + line_if(
            true,
            "merge-safe segment band: "@ + cli::human_text(min_bytes as nat)
                + " .. "@ + cli::human_text(max_bytes as nat),
        )
        + line_if(true, "bytes_per_point: "@ + text::decimal_text(bytes_per_point as nat))
}

/// What validating a document prints: its fingerprints, how it routes, and the band in which its
/// segments are planned.
pub fn validate_lines(
    path: &str,
    loaded: &LoadedConfig,
    indexed_fields: Option<usize>,
    min_bytes: u64,
    max_bytes: u64,
    bytes_per_point: u64,
) -> (lines: Vec<String>)
    ensures
        text::texts(lines@) == validate_lines_text(path@, *loaded, indexed_fields, min_bytes, max_bytes, bytes_per_point),
{
    let mut lines: Vec<String> = Vec::new();
    assert(text::texts(lines@) =~= no_lines());
    let fields: usize = number_or_zero(indexed_fields);
    add_if(&mut lines, true, text::cat2("config: ", path));
    add_if(
        &mut lines,
        indexed_fields.is_some(),
        text::cat3(
            "payload indexes: ",
            text::decimal(fields as u128).as_str(),
            " field(s) declared",
        ),
    );
    add_if(&mut lines, true, text::cat2("fingerprint: ", loaded.fingerprint.as_str()));
    add_if(&mut lines, true, text::cat2("part fingerprint: ", loaded.part_fingerprint.as_str()));
    add_if(
        &mut lines,
        true,
        text::cat2("shards: ", text::decimal(loaded.config.shard_number as u128).as_str()),
    );
    add_if(
        &mut lines,
        true,
        text::cat2("sharding_method: ", config::sharding_name(loaded.sharding_method())),
    );
    add_if(
        &mut lines,
        true,
        text::cat3(
            "hash_ring_shard_scale: ",
            text::decimal(loaded.config.hash_ring_shard_scale as u128).as_str(),
            " virtual nodes/shard",
        ),
    );
    add_if(
        &mut lines,
        true,
        text::cat2("max_segment_size: ", cli::human_bytes(max_bytes).as_str()),
    );
    add_if(
        &mut lines,
        true,
        text::cat4(
            "merge-safe segment band: ",
            cli::human_bytes(min_bytes).as_str(),
            " .. ",
            cli::human_bytes(max_bytes).as_str(),
        ),
    );
    add_if(
        &mut lines,
        true,
        text::cat2("bytes_per_point: ", text::decimal(bytes_per_point as u128).as_str()),
    );
    lines
}

/// The segment plan that a number of points would get.
#[derive(Debug, Clone, Copy, PartialEq, Eq, Structural)]
pub struct Projection {
    pub points: u64,
    pub vector_bytes: u64,
    pub shards: u64,
    /// Vector storage of one shard, split evenly.
    pub per_shard: u64,
    pub points_per_shard: u64,
    pub segments_per_shard: u64,
    pub segment_size: u64,
    /// Whether a segment is below the merge-safe floor.
    pub below_floor: bool,
    /// Whether there are more segments than the collection's own number of them.
    pub many_segments: bool,
}

/// A quotient rounded up.
pub open spec fn quotient_up(n: nat, d: nat) -> nat {
    if n % d == 0 {
        n / d
    } else {
        n / d + 1
    }
}

fn divide_up(n: u64, d: u64) -> (q: u64)
    requires
        d > 0,
    ensures
        q == quotient_up(n as nat, d as nat),
        q <= n,
{
    let q: u64 = n / d;
    assert(q <= n && (n % d != 0 ==> q < n)) by (nonlinear_arith)
        requires
            q == n / d,
            d > 0,
    ;
    if n % d == 0 {
        q
    } else {
        q + 1
    }
}

/// The segments of a shard at the top of the size band: the fewest, and at least one.
pub open spec fn fewest_segments(per_shard: nat, max_bytes: nat) -> nat {
    if quotient_up(per_shard, max_bytes) == 0 {
        1
    } else {
        quotient_up(per_shard, max_bytes)
    }
}

/// Whether this is the segment plan that points and bytes come to over so many shards: an even share
/// for each, in the fewest segments.
pub open spec fn is_projection(
    projection: Projection,
    shard_number: u32,
    default_segments: u64,
    points: u64,
    vector_bytes: u64,
    min_bytes: u64,
    max_bytes: u64,
) -> bool {
    let shards = shard_number as nat;
    let per_shard = quotient_up(vector_bytes as nat, shards);
    let segments = fewest_segments(per_shard, max_bytes as nat);
    let size = quotient_up(per_shard, segments);
    &&& projection.points == points
    &&& projection.vector_bytes == vector_bytes
    &&& projection.shards == shards
    &&& projection.per_shard == per_shard
    &&& projection.points_per_shard == quotient_up(points as nat, shards)
    &&& projection.segments_per_shard == segments
    &&& projection.segment_size == size
    &&& projection.below_floor == (size < min_bytes)
    &&& projection.many_segments == (size >= min_bytes && default_segments > 0 && segments
        > default_segments)
}

/// Project the segment plan, and hold it against the merge optimizer's one constraint: a segment at
/// the floor or above is never merged, whatever the shard holds in all. A shard below the floor gets
/// one segment, which has nothing to be merged with.
pub fn plan_segments(
    loaded: &LoadedConfig,
    points: u64,
    vector_bytes: u64,
    min_bytes: u64,
    max_bytes: u64,
) -> (projection: Projection)
    requires
        loaded.config.shard_number > 0,
        max_bytes > 0,
    ensures
        is_projection(
            projection,
            loaded.config.shard_number,
            loaded.config.default_segment_number,
            points,
            vector_bytes,
            min_bytes,
            max_bytes,
        ),
{
    let shards: u64 = loaded.shard_number() as u64;
    let per_shard: u64 = divide_up(vector_bytes, shards);
    let fitting: u64 = divide_up(per_shard, max_bytes);
    let segments: u64 = if fitting == 0 {
        1
    } else {
        fitting
    };
    let size: u64 = divide_up(per_shard, segments);
    let default_segments: u64 = loaded.config.default_segment_number;
    let below: bool = size < min_bytes;
    Projection {
        points,
        vector_bytes,
        shards,
        per_shard,
        points_per_shard: divide_up(points, shards),
        segments_per_shard: segments,
        segment_size: size,
        below_floor: below,
        many_segments: !below && default_segments > 0 && segments > default_segments,
    }
}

/// What projecting a segment plan prints.
pub open spec fn projection_lines_text(
    projection: Projection,
    headroom: Seq<char>,
    default_segments: u64,
) -> Seq<Seq<char>> {
    no_lines()
        + line_if(true, "\npoints: "@ + text::decimal_text(projection.points as nat))
        + line_if(true, "vector storage: "@ + cli::human_text(projection.vector_bytes as nat))
        + line_if(true, "shards: "@ + text::decimal_text(projection.shards as nat))
        + line_if(
            true,
            "per_shard vectors (even split): "@ + cli::human_text(projection.per_shard as nat),
        )
        + line_if(
            true,
            "points/shard: "@ + text::decimal_text(projection.points_per_shard as nat),
        )
        + line_if(
            true,
            "segments_per_shard: "@ + text::decimal_text(projection.segments_per_shard as nat),
        )
        + line_if(true, "segment_size: "@ + cli::human_text(projection.segment_size as nat))
        + line_if(!projection.below_floor, "floor headroom: "@ + headroom + "%"@)
        + line_if(
            projection.many_segments,
            "note: "@ + text::decimal_text(projection.segments_per_shard as nat)
                + " segments/shard exceeds default_segment_number ("@
                + text::decimal_text(default_segments as nat)
                + "). That is allowed \u{2014} the merge optimizer still cannot pair segments this large \u{2014} but search fans out across all of them."@,
        )
}

/// What projecting a segment plan prints. How far segments are above the floor, in percent, is
/// computed in floating point.
pub fn projection_lines(
    projection: &Projection,
    headroom: &str,
    default_segments: u64,
) -> (lines: Vec<String>)
    ensures
        text::texts(lines@) == projection_lines_text(*projection, headroom@, default_segments),
{
    let mut lines: Vec<String> = Vec::new();
    assert(text::texts(lines@) =~= no_lines());
    add_if(
        &mut lines,
        true,
        text::cat2("\npoints: ", text::decimal(projection.points as u128).as_str()),
    );
    add_if(
        &mut lines,
        true,
        text::cat2("vector storage: ", cli::human_bytes(projection.vector_bytes).as_str()),
    );
    add_if(
        &mut lines,
        true,
        text::cat2("shards: ", text::decimal(projection.shards as u128).as_str()),
    );
    add_if(
        &mut lines,
        true,
        text::cat2(
            "per_shard vectors (even split): ",
            cli::human_bytes(projection.per_shard).as_str(),
        ),
    );
    add_if(
        &mut lines,
        true,
        text::cat2("points/shard: ", text::decimal(projection.points_per_shard as u128).as_str()),
    );
    add_if(
        &mut lines,
        true,
        text::cat2(
            "segments_per_shard: ",
            text::decimal(projection.segments_per_shard as u128).as_str(),
        ),
    );
    add_if(
        &mut lines,
        true,
        text::cat2("segment_size: ", cli::human_bytes(projection.segment_size).as_str()),
    );
    add_if(&mut lines, !projection.below_floor, text::cat3("floor headroom: ", headroom, "%"));
    add_if(
        &mut lines,
        projection.many_segments,
        text::cat5(
            "note: ",
            text::decimal(projection.segments_per_shard as u128).as_str(),
            " segments/shard exceeds default_segment_number (",
            text::decimal(default_segments as u128).as_str(),
            "). That is allowed \u{2014} the merge optimizer still cannot pair segments this large \u{2014} but search fans out across all of them.",
        ),
    );
    lines
}

/// What projecting a segment plan warns about.
pub open spec fn projection_warnings_text(
    projection: Projection,
    headroom: Seq<char>,
    close_to_floor: bool,
    min_bytes: u64,
) -> Seq<Seq<char>> {
    no_lines()
        + line_if(
            projection.below_floor,
            "a shard holds "@ + cli::human_text(projection.per_shard as nat)
                + " which is below the "@ + cli::human_text(min_bytes as nat)
                + " merge-safe floor; build a single segment per shard so there is no pair for the optimizer to merge"@,
        )
        + line_if(
            !projection.below_floor && close_to_floor,
            "segments sit only "@ + headroom + "% above the merge-safe floor ("@
                + cli::human_text(min_bytes as nat)
                + "); uneven partitions could drop a segment below it and trigger a merge. Consider fewer, larger segments."@,
        )
}

/// What projecting a segment plan warns about: a shard below the floor, or segments close to it.
/// `headroom` is how far they are above it, as it is printed.
pub fn projection_warnings(
    projection: &Projection,
    headroom: &str,
    close_to_floor: bool,
    min_bytes: u64,
) -> (lines: Vec<String>)
    ensures
        text::texts(lines@) == projection_warnings_text(
            *projection,
            headroom@,
            close_to_floor,
            min_bytes,
        ),
{
    let mut lines: Vec<String> = Vec::new();
    assert(text::texts(lines@) =~= no_lines());
    add_if(
        &mut lines,
        projection.below_floor,
        text::cat5(
            "a shard holds ",
            cli::human_bytes(projection.per_shard).as_str(),
            " which is below the ",
            cli::human_bytes(min_bytes).as_str(),
            " merge-safe floor; build a single segment per shard so there is no pair for the optimizer to merge",
        ),
    );
    add_if(
        &mut lines,
        !projection.below_floor && close_to_floor,
        text::cat5(
            "segments sit only ",
            headroom,
            "% above the merge-safe floor (",
            cli::human_bytes(min_bytes).as_str(),
            "); uneven partitions could drop a segment below it and trigger a merge. Consider fewer, larger segments.",
        ),
    );
    lines
}

/// A point id with its kind, for a reader.
pub open spec fn kind_text(id: PointId) -> Seq<char> {
    match id {
        PointId::NumId(n) => "NumId("@ + text::decimal_text(n as nat) + ")"@,
        PointId::Uuid(uuid) => "Uuid("@ + ids::uuid_text(uuid) + ")"@,
    }
}

fn kind_name(id: PointId) -> (name: String)
    ensures
        name@ == kind_text(id),
{
    match id {
        PointId::NumId(n) => text::cat3("NumId(", text::decimal(n as u128).as_str(), ")"),
        PointId::Uuid(uuid) => text::cat3("Uuid(", ids::uuid_name(uuid).as_str(), ")"),
    }
}

/// The lines on ids that are not where they belong, as far as a report shows them.
pub open spec fn id_lines(found: Seq<(u32, PointId)>, says: Seq<char>, shown: nat) -> Seq<Seq<char>>
    decreases shown,
{
    if shown == 0 {
        Seq::empty()
    } else {
        let front = id_lines(found, says, (shown - 1) as nat);
        if shown <= found.len() {
            front.push(
                "  shard "@ + text::decimal_text(found[shown - 1].0 as nat) + says + kind_text(
                    found[shown - 1].1,
                ),
            )
        } else {
            front
        }
    }
}

fn add_ids(lines: &mut Vec<String>, found: &Vec<(u32, PointId)>, says: &str)
    ensures
        text::texts(final(lines)@) == text::texts(old(lines)@) + id_lines(
            found@,
            says@,
            SHOWN as nat,
        ),
{
    let ghost before = text::texts(lines@);
    let mut i: usize = 0;
    assert(before + id_lines(found@, says@, 0) =~= before);
    while i < SHOWN
        invariant
            i <= SHOWN,
            text::texts(lines@) == before + id_lines(found@, says@, i as nat),
        decreases SHOWN - i,
    {
        if i < found.len() {
            let line = text::cat4(
                "  shard ",
                text::decimal(found[i].0 as u128).as_str(),
                says,
                kind_name(found[i].1).as_str(),
            );
            let ghost was = text::texts(lines@);
            let ghost said = line@;
            lines.push(line);
            assert(text::texts(lines@) =~= was.push(said));
        }
        assert(text::texts(lines@) =~= before + id_lines(found@, says@, (i + 1) as nat));
        i = i + 1;
    }
}

/// Whether a report found every id where it belongs.
pub open spec fn is_correct(report: PlacementReport) -> bool {
    report.misplaced@.len() == 0 && report.leaked@.len() == 0
}

/// What a placement check prints.
pub open spec fn placement_lines_text(report: PlacementReport, urls: usize) -> Seq<Seq<char>> {
    no_lines()
        + line_if(
            true,
            "peers queried: "@ + text::decimal_text(report.peers_queried as nat) + " (from "@
                + text::decimal_text(urls as nat) + " url(s))"@,
        )
        + line_if(true, "shards checked: "@ + text::decimal_text(report.shards_checked as nat))
        + line_if(true, "ids checked: "@ + text::decimal_text(report.ids_checked as nat))
        + line_if(
            is_correct(report),
            "\nOK - every sampled point is in the shard the hash ring assigned it to, and absent from the shard next to it"@,
        )
        + line_if(
            report.misplaced@.len() > 0,
            "\nMISPLACED - the ring assigns these to a shard that does not hold them:"@,
        ) + id_lines(report.misplaced@, " should hold "@, SHOWN as nat)
        + line_if(
            report.misplaced@.len() > SHOWN,
            "  ... and "@ + text::decimal_text(unshown(report.misplaced@.len())) + " more"@,
        )
        + line_if(
            report.leaked@.len() > 0,
            "\nLEAKED - found in a shard the ring did not assign them to:"@,
        ) + id_lines(report.leaked@, " unexpectedly holds "@, SHOWN as nat)
}

/// What a placement check prints: its verdict, and the ids that are not where they belong.
pub fn placement_lines(report: &PlacementReport, urls: usize) -> (lines: Vec<String>)
    ensures
        text::texts(lines@) == placement_lines_text(*report, urls),
{
    let mut lines: Vec<String> = Vec::new();
    assert(text::texts(lines@) =~= no_lines());
    add_if(
        &mut lines,
        true,
        text::cat5(
            "peers queried: ",
            text::decimal(report.peers_queried as u128).as_str(),
            " (from ",
            text::decimal(urls as u128).as_str(),
            " url(s))",
        ),
    );
    add_if(
        &mut lines,
        true,
        text::cat2("shards checked: ", text::decimal(report.shards_checked as u128).as_str()),
    );
    add_if(
        &mut lines,
        true,
        text::cat2("ids checked: ", text::decimal(report.ids_checked as u128).as_str()),
    );
    add_if(
        &mut lines,
        report.is_correct(),
        "\nOK - every sampled point is in the shard the hash ring assigned it to, and absent from the shard next to it".to_owned(),
    );
    add_if(
        &mut lines,
        report.misplaced.len() > 0,
        "\nMISPLACED - the ring assigns these to a shard that does not hold them:".to_owned(),
    );
    add_ids(&mut lines, &report.misplaced, " should hold ");
    add_if(
        &mut lines,
        report.misplaced.len() > SHOWN,
        text::cat3(
            "  ... and ",
            text::decimal(not_shown(report.misplaced.len()) as u128).as_str(),
            " more",
        ),
    );
    add_if(
        &mut lines,
        report.leaked.len() > 0,
        "\nLEAKED - found in a shard the ring did not assign them to:".to_owned(),
    );
    add_ids(&mut lines, &report.leaked, " unexpectedly holds ");
    lines
}

/// A placement check that found an id out of its place is a failure.
pub fn check_placement(report: &PlacementReport) -> (outcome: Result<(), String>)
    ensures
        match outcome {
            Ok(()) => is_correct(*report),
            Err(message) => !is_correct(*report) && message@
                == "shard placement is wrong. Reads will still appear to work, but any upsert of an existing id will create a duplicate that is never deduplicated. Re-install the artifacts using `install-plan` to get the shard-to-peer mapping."@,
        },
{
    if !report.is_correct() {
        return Err(
            "shard placement is wrong. Reads will still appear to work, but any upsert of an existing id will create a duplicate that is never deduplicated. Re-install the artifacts using `install-plan` to get the shard-to-peer mapping.".to_owned(),
        );
    }
    Ok(())
}

/// The lines on where each shard goes.
pub open spec fn assignment_lines(placement: Seq<(u32, u64, Seq<char>)>) -> Seq<Seq<char>>
    decreases placement.len(),
{
    if placement.len() == 0 {
        Seq::empty()
    } else {
        let last = placement.last();
        assignment_lines(placement.drop_last()).push(
            "  shard "@ + text::decimal_text(last.0 as nat) + "  ->  peer "@ + text::decimal_text(
                last.1 as nat,
            ) + "  "@ + last.2,
        )
    }
}

fn add_assignments(lines: &mut Vec<String>, placement: &Vec<Assignment>)
    ensures
        text::texts(final(lines)@) == text::texts(old(lines)@) + assignment_lines(
            placement::placement_view(placement@),
        ),
{
    let ghost before = text::texts(lines@);
    let ghost all = placement::placement_view(placement@);
    let mut i: usize = 0;
    assert(all.take(0) =~= Seq::empty());
    assert(before + assignment_lines(all.take(0)) =~= before);
    while i < placement.len()
        invariant
            i <= placement.len(),
            all == placement::placement_view(placement@),
            text::texts(lines@) == before + assignment_lines(all.take(i as int)),
        decreases placement.len() - i,
    {
        assert(all.take(i + 1).drop_last() =~= all.take(i as int));
        let line = text::cat6(
            "  shard ",
            text::decimal(placement[i].shard as u128).as_str(),
            "  ->  peer ",
            text::decimal(placement[i].peer as u128).as_str(),
            "  ",
            placement[i].uri.as_str(),
        );
        let ghost was = text::texts(lines@);
        let ghost said = line@;
        lines.push(line);
        assert(text::texts(lines@) =~= was.push(said));
        assert(text::texts(lines@) =~= before + assignment_lines(all.take(i + 1)));
        i = i + 1;
    }
    assert(all.take(all.len() as int) =~= all);
}

/// What an install plan prints.
pub open spec fn install_plan_lines_text(plan: InstallPlan) -> Seq<Seq<char>> {
    no_lines()
        + line_if(true, "queried peer: "@ + text::decimal_text(plan.queried_peer as nat))
        + line_if(true, "\nshard -> peer (install shard_N's artifact on this peer):"@) + assignment_lines(placement::placement_view(plan.placement@))
        + line_if(
            true,
            "\nConsensus owns this mapping, so read it from the cluster rather than assuming directory order. After installing, run `verify-placement`."@,
        )
}

/// What an install plan prints: which peer each shard goes to.
pub fn install_plan_lines(plan: &InstallPlan) -> (lines: Vec<String>)
    ensures
        text::texts(lines@) == install_plan_lines_text(*plan),
{
    let mut lines: Vec<String> = Vec::new();
    assert(text::texts(lines@) =~= no_lines());
    add_if(
        &mut lines,
        true,
        text::cat2("queried peer: ", text::decimal(plan.queried_peer as u128).as_str()),
    );
    add_if(
        &mut lines,
        true,
        "\nshard -> peer (install shard_N's artifact on this peer):".to_owned(),
    );
    add_assignments(&mut lines, &plan.placement);
    add_if(
        &mut lines,
        true,
        "\nConsensus owns this mapping, so read it from the cluster rather than assuming directory order. After installing, run `verify-placement`.".to_owned(),
    );
    lines
}

/// Lines behind others, two columns in.
pub open spec fn indented(lines: Seq<Seq<char>>) -> Seq<Seq<char>> {
    Seq::new(lines.len(), |i: int| "  "@ + lines[i])
}

fn add_indented(lines: &mut Vec<String>, more: &Vec<String>)
    ensures
        text::texts(final(lines)@) == text::texts(old(lines)@) + indented(text::texts(more@)),
{
    let ghost before = text::texts(lines@);
    let ghost all = indented(text::texts(more@));
    let mut i: usize = 0;
    assert(before + all.take(0) =~= before);
    while i < more.len()
        invariant
            i <= more.len(),
            all == indented(text::texts(more@)),
            text::texts(lines@) == before + all.take(i as int),
        decreases more.len() - i,
    {
        let line = text::cat2("  ", more[i].as_str());
        let ghost was = text::texts(lines@);
        let ghost said = line@;
        lines.push(line);
        assert(said == all[i as int]);
        assert(text::texts(lines@) =~= was.push(said));
        assert(text::texts(lines@) =~= before + all.take(i + 1));
        i = i + 1;
    }
    assert(all.take(all.len() as int) =~= all);
}

/// What a retarget run prints.
pub open spec fn retarget_lines_text(report: RetargetReport, dry_run: bool) -> Seq<Seq<char>> {
    no_lines() + indented(text::texts(report.changes@))
        + line_if(
            dry_run,
            "dry run: "@ + text::decimal_text(report.shards as nat) + " shards, "@
                + text::decimal_text(report.segments_examined as nat) + " segments examined, "@
                + text::decimal_text(report.segments_rewritten as nat)
                + " would be rewritten (nothing was written)"@,
        )
        + line_if(
            !dry_run,
            "retargeted: "@ + text::decimal_text(report.shards as nat) + " shards, "@
                + text::decimal_text(report.segments_examined as nat) + " segments examined, "@
                + text::decimal_text(report.segments_rewritten as nat) + " rewritten"@,
        )
        + line_if(
            !dry_run && report.segments_rewritten > 0,
            "\nThe recorded configs now match this document's placements. Keep serving and verifying (verify-config, verify-placement) with this document from here on."@,
        )
}

/// What a retarget run prints: every change, and what was or would be rewritten.
pub fn retarget_lines(report: &RetargetReport, dry_run: bool) -> (lines: Vec<String>)
    ensures
        text::texts(lines@) == retarget_lines_text(*report, dry_run),
{
    let mut lines: Vec<String> = Vec::new();
    assert(text::texts(lines@) =~= no_lines());
    add_indented(&mut lines, &report.changes);
    add_if(
        &mut lines,
        dry_run,
        text::cat7(
            "dry run: ",
            text::decimal(report.shards as u128).as_str(),
            " shards, ",
            text::decimal(report.segments_examined as u128).as_str(),
            " segments examined, ",
            text::decimal(report.segments_rewritten as u128).as_str(),
            " would be rewritten (nothing was written)",
        ),
    );
    add_if(
        &mut lines,
        !dry_run,
        text::cat7(
            "retargeted: ",
            text::decimal(report.shards as u128).as_str(),
            " shards, ",
            text::decimal(report.segments_examined as u128).as_str(),
            " segments examined, ",
            text::decimal(report.segments_rewritten as u128).as_str(),
            " rewritten",
        ),
    );
    add_if(
        &mut lines,
        !dry_run && report.segments_rewritten > 0,
        "\nThe recorded configs now match this document's placements. Keep serving and verifying (verify-config, verify-placement) with this document from here on.".to_owned(),
    );
    lines
}

/// What comparing a document with a live collection prints.
pub open spec fn verify_config_lines_text(
    collection: Seq<char>,
    local: Seq<char>,
    remote: Seq<char>,
    differences: Seq<Seq<char>>,
) -> Seq<Seq<char>> {
    no_lines()
        + line_if(true, "collection: "@ + collection)
        + line_if(true, "local fingerprint:  "@ + local)
        + line_if(true, "remote fingerprint: "@ + remote)
        + line_if(
            local == remote && differences.len() == 0,
            "\nOK - config matches the live collection"@,
        )
        + line_if(
            local != remote || differences.len() > 0,
            "\nDifferences over the rebuild-triggering surface:"@,
        ) + indented(differences)
        + line_if(
            local != remote && differences.len() == 0,
            "  (none named, but fingerprints differ - a hashed field is not covered by the field-level diff; this is a bug in the builder, please report it)"@,
        )
}

/// What comparing a document with a live collection prints: both fingerprints, and what differs
/// over the surface that makes the cluster rebuild.
pub fn verify_config_lines(
    collection: &str,
    local: &str,
    remote: &str,
    differences: &Vec<String>,
) -> (lines: Vec<String>)
    ensures
        text::texts(lines@) == verify_config_lines_text(collection@, local@, remote@, text::texts(differences@)),
{
    let mut lines: Vec<String> = Vec::new();
    assert(text::texts(lines@) =~= no_lines());
    assert(text::texts(differences@).len() == differences@.len());
    add_if(&mut lines, true, text::cat2("collection: ", collection));
    add_if(&mut lines, true, text::cat2("local fingerprint:  ", local));
    add_if(&mut lines, true, text::cat2("remote fingerprint: ", remote));
    add_if(
        &mut lines,
        text::same(local, remote) && differences.len() == 0,
        "\nOK - config matches the live collection".to_owned(),
    );
    add_if(
        &mut lines,
        !text::same(local, remote) || differences.len() > 0,
        "\nDifferences over the rebuild-triggering surface:".to_owned(),
    );
    add_indented(&mut lines, differences);
    add_if(
        &mut lines,
        !text::same(local, remote) && differences.len() == 0,
        "  (none named, but fingerprints differ - a hashed field is not covered by the field-level diff; this is a bug in the builder, please report it)".to_owned(),
    );
    lines
}

/// A document that differs from a live collection is a failure: the cluster would rewrite segments
/// that are built under it.
pub fn check_config_matches(local: &str, remote: &str, differences: &Vec<String>) -> (outcome: Result<
    (),
    String,
>)
    ensures
        match outcome {
            Ok(()) => local@ == remote@ && differences@.len() == 0,
            Err(message) => !(local@ == remote@ && differences@.len() == 0) && message@
                == "config does not match the live collection. Building against this config would produce segments the cluster rewrites on restore."@,
        },
{
    if text::same(local, remote) && differences.len() == 0 {
        return Ok(());
    }
    Err(
        "config does not match the live collection. Building against this config would produce segments the cluster rewrites on restore.".to_owned(),
    )
}

/// The line on one assembled shard.
pub fn assembled_line(report: &AssembleReport) -> (line: String)
    ensures
        line@ == "  shard "@ + text::decimal_text(report.shard_id as nat) + ": "@
            + text::decimal_text(report.segments as nat) + " segments, max version "@
            + text::decimal_text(report.max_segment_version as nat) + (", wal base "@
            + text::decimal_text(report.wal_base as nat)),
{
    let tail = text::cat2(", wal base ", text::decimal(report.wal_base as u128).as_str());
    text::cat7(
        "  shard ",
        text::decimal(report.shard_id as u128).as_str(),
        ": ",
        text::decimal(report.segments as u128).as_str(),
        " segments, max version ",
        text::decimal(report.max_segment_version as u128).as_str(),
        tail.as_str(),
    )
}

/// What an assemble run prints when it is done.
pub open spec fn assemble_lines_text(indexed_fields: Option<usize>) -> Seq<Seq<char>> {
    no_lines()
        + line_if(
            true,
            "\nEach shard_N is now a restorable shard directory. To install with no copy, stage each shard_N under its serving node's `storage.shard_adoption_path` (same filesystem as the storage, `storage.temp_path` unset) and either create the collection with `shard_placement` + `adopt_shards_from` (one call), or adopt per shard via the snapshot recover endpoint with an `adopt://` location. The tar snapshot recover API remains the fallback where staging is not possible."@,
        )
        + line_if(
            indexed_fields is Some,
            "\nPayload field indexes: "@ + text::decimal_text(or_zero(indexed_fields) as nat)
                + " field(s), built into each segment by the build phase, so LocalShard::load has none left to build."@,
        )
        + line_if(
            indexed_fields is None,
            "\nNote: no payload field indexes were created. If the collection declares any, LocalShard::load builds them at load time on the target filesystem, which is slow on a large shard."@,
        )
        + line_if(true, "\nOK"@)
}

/// What an assemble run prints when it is done: how the shards are installed, and whether their
/// field indexes are built already.
pub fn assemble_lines(indexed_fields: Option<usize>) -> (lines: Vec<String>)
    ensures
        text::texts(lines@) == assemble_lines_text(indexed_fields),
{
    let mut lines: Vec<String> = Vec::new();
    assert(text::texts(lines@) =~= no_lines());
    let fields: usize = number_or_zero(indexed_fields);
    add_if(
        &mut lines,
        true,
        "\nEach shard_N is now a restorable shard directory. To install with no copy, stage each shard_N under its serving node's `storage.shard_adoption_path` (same filesystem as the storage, `storage.temp_path` unset) and either create the collection with `shard_placement` + `adopt_shards_from` (one call), or adopt per shard via the snapshot recover endpoint with an `adopt://` location. The tar snapshot recover API remains the fallback where staging is not possible.".to_owned(),
    );
    add_if(
        &mut lines,
        indexed_fields.is_some(),
        text::cat3(
            "\nPayload field indexes: ",
            text::decimal(fields as u128).as_str(),
            " field(s), built into each segment by the build phase, so LocalShard::load has none left to build.",
        ),
    );
    add_if(
        &mut lines,
        indexed_fields.is_none(),
        "\nNote: no payload field indexes were created. If the collection declares any, LocalShard::load builds them at load time on the target filesystem, which is slow on a large shard.".to_owned(),
    );
    add_if(&mut lines, true, "\nOK".to_owned());
    lines
}

/// The bytes that a number of points takes, where they can be counted.
pub fn projected_bytes(points: u64, bytes_per_point: u64) -> (bytes: Result<u64, String>)
    ensures
        match bytes {
            Ok(n) => n == points * bytes_per_point,
            Err(message) => points * bytes_per_point > u64::MAX && message@
                == "points x bytes_per_point overflows"@,
        },
{
    match points.checked_mul(bytes_per_point) {
        Some(n) => Ok(n),
        None => Err("points x bytes_per_point overflows".to_owned()),
    }
}

/// What validating a document says where no number of points is given.
pub fn projection_hint(min_bytes: u64) -> (line: String)
    ensures
        line@ == "\nPass --points to project the segment plan. Segments below "@ + cli::human_text(
            min_bytes as nat,
        ) + " would be merged by the serving cluster on load."@,
{
    text::cat3(
        "\nPass --points to project the segment plan. Segments below ",
        cli::human_bytes(min_bytes).as_str(),
        " would be merged by the serving cluster on load.",
    )
}

/// How unevenly the hash ring fills the shards.
///
/// The points and the percentages are computed in floating point, and so is whether the fullest shard
/// is worth a word.
pub struct Skew<'a> {
    pub even_points: u64,
    pub largest_points: u64,
    pub smallest_points: u64,
    /// How far the fullest shard is above an even split, with its sign.
    pub largest_gain: &'a str,
    /// How far the emptiest shard is off an even split, with its sign.
    pub smallest_gain: &'a str,
    /// How far the fullest shard is above an even split, without a sign.
    pub excess: &'a str,
    /// Whether the fullest shard holds over a twentieth more than an even split.
    pub uneven: bool,
}

/// A product, or the largest number where it is out of range.
pub open spec fn product_or_max(a: u64, b: u64) -> nat {
    if a * b > u64::MAX {
        u64::MAX as nat
    } else {
        (a * b) as nat
    }
}

fn multiply_or_max(a: u64, b: u64) -> (n: u64)
    ensures
        n == product_or_max(a, b),
{
    match a.checked_mul(b) {
        Some(n) => n,
        None => u64::MAX,
    }
}

/// What projecting the ring's distribution prints.
pub open spec fn skew_lines_text(skew: Skew, bytes_per_point: u64) -> Seq<Seq<char>> {
    no_lines()
        + line_if(
            true,
            "\nprojected hash ring distribution (a property of shard_number and hash_ring_shard_scale, not of the data):"@,
        )
        + line_if(
            true,
            "  evenly:  "@ + text::decimal_text(skew.even_points as nat) + " points/shard, "@
                + cli::human_text(product_or_max(skew.even_points, bytes_per_point)),
        )
        + line_if(
            true,
            "  largest: "@ + text::decimal_text(skew.largest_points as nat) + " points ("@
                + skew.largest_gain@ + "%), "@
                + cli::human_text(product_or_max(skew.largest_points, bytes_per_point)),
        )
        + line_if(
            true,
            "  smallest: "@ + text::decimal_text(skew.smallest_points as nat) + " points ("@
                + skew.smallest_gain@ + "%)"@,
        )
        + line_if(
            skew.uneven,
            "  -> size per-node memory for the largest shard, not the mean: it holds "@
                + skew.excess@
                + "% more than an even split. This skew is fixed by the ring and does not shrink with more data; a higher hash_ring_shard_scale at creation would flatten it."@,
        )
}

/// What projecting the ring's distribution prints. The skew is a property of the ring, so memory
/// is sized for the fullest shard.
pub fn skew_lines(skew: &Skew, bytes_per_point: u64) -> (lines: Vec<String>)
    ensures
        text::texts(lines@) == skew_lines_text(*skew, bytes_per_point),
{
    let mut lines: Vec<String> = Vec::new();
    assert(text::texts(lines@) =~= no_lines());
    add_if(
        &mut lines,
        true,
        "\nprojected hash ring distribution (a property of shard_number and hash_ring_shard_scale, not of the data):".to_owned(),
    );
    add_if(
        &mut lines,
        true,
        text::cat4(
            "  evenly:  ",
            text::decimal(skew.even_points as u128).as_str(),
            " points/shard, ",
            cli::human_bytes(multiply_or_max(skew.even_points, bytes_per_point)).as_str(),
        ),
    );
    add_if(
        &mut lines,
        true,
        text::cat6(
            "  largest: ",
            text::decimal(skew.largest_points as u128).as_str(),
            " points (",
            skew.largest_gain,
            "%), ",
            cli::human_bytes(multiply_or_max(skew.largest_points, bytes_per_point)).as_str(),
        ),
    );
    add_if(
        &mut lines,
        true,
        text::cat5(
            "  smallest: ",
            text::decimal(skew.smallest_points as u128).as_str(),
            " points (",
            skew.smallest_gain,
            "%)",
        ),
    );
    add_if(
        &mut lines,
        skew.uneven,
        text::cat3(
            "  -> size per-node memory for the largest shard, not the mean: it holds ",
            skew.excess,
            "% more than an even split. This skew is fixed by the ring and does not shrink with more data; a higher hash_ring_shard_scale at creation would flatten it.",
        ),
    );
    lines
}

/// The totals over plans add up, plan by plan.
pub proof fn plan_totals_add_up(plans: Seq<ShardPlan>, plan: ShardPlan)
    ensures
        planned_points(Seq::empty()) == 0,
        planned_segments(Seq::empty()) == 0,
        planned_points(plans.push(plan)) == planned_points(plans) + plan.points,
        planned_segments(plans.push(plan)) == planned_segments(plans) + plan.segments@.len(),
{
    assert(plans.push(plan).drop_last() =~= plans);
}

/// No segment is larger than the largest, and where there are segments one is as large.
pub proof fn no_segment_is_larger_than_the_largest(segments: Seq<SegmentPlan>)
    ensures
        forall|i: int|
            0 <= i < segments.len() ==> (#[trigger] segments[i]).vector_bytes <= largest_segment(
                segments,
            ),
        segments.len() > 0 ==> exists|i: int|
            0 <= i < segments.len() && (#[trigger] segments[i]).vector_bytes == largest_segment(
                segments,
            ),
        segments.len() == 0 ==> largest_segment(segments) == 0,
    decreases segments.len(),
{
    if segments.len() > 0 {
        let rest = segments.drop_last();
        no_segment_is_larger_than_the_largest(rest);
        assert(segments[segments.len() - 1] == segments.last());
        assert forall|i: int| 0 <= i < segments.len() implies (#[trigger] segments[i]).vector_bytes
            <= largest_segment(segments) by {
            if i < rest.len() {
                assert(rest[i] == segments[i]);
            }
        }
        if segments.last().vector_bytes <= largest_segment(rest) {
            if rest.len() > 0 {
                let i = choose|i: int|
                    0 <= i < rest.len() && (#[trigger] rest[i]).vector_bytes == largest_segment(
                        rest,
                    );
                assert(segments[i] == rest[i]);
            } else {
                assert(segments[0].vector_bytes == largest_segment(segments));
            }
        }
    }
}

/// Every shard has at least the fewest points and at most the most, and each is some shard's.
pub proof fn every_shard_is_between_the_extremes(per_shard: Seq<(u32, u64)>)
    ensures
        forall|i: int|
            0 <= i < per_shard.len() ==> fewest(per_shard) <= (#[trigger] per_shard[i]).1 <= most(
                per_shard,
            ),
        per_shard.len() > 0 ==> exists|i: int|
            0 <= i < per_shard.len() && (#[trigger] per_shard[i]).1 == fewest(per_shard),
        per_shard.len() > 0 ==> exists|i: int|
            0 <= i < per_shard.len() && (#[trigger] per_shard[i]).1 == most(per_shard),
    decreases per_shard.len(),
{
    if per_shard.len() > 0 {
        let rest = per_shard.drop_last();
        every_shard_is_between_the_extremes(rest);
        assert(per_shard[per_shard.len() - 1] == per_shard.last());
        assert forall|i: int| 0 <= i < per_shard.len() implies fewest(per_shard) <= (
        #[trigger] per_shard[i]).1 <= most(per_shard) by {
            if i < rest.len() {
                assert(rest[i] == per_shard[i]);
            }
        }
        if rest.len() > 0 {
            let i = choose|i: int| 0 <= i < rest.len() && (#[trigger] rest[i]).1 == fewest(rest);
            let k = choose|k: int| 0 <= k < rest.len() && (#[trigger] rest[k]).1 == most(rest);
            assert(per_shard[i] == rest[i]);
            assert(per_shard[k] == rest[k]);
        } else {
            assert(per_shard[0].1 == fewest(per_shard));
        }
    }
}

/// A quotient that is rounded up is the smallest number of shares of a size that hold a whole.
pub proof fn a_quotient_up_is_the_fewest_shares(n: nat, d: nat)
    requires
        d > 0,
    ensures
        quotient_up(n, d) * d >= n,
        n > 0 ==> quotient_up(n, d) > 0 && (quotient_up(n, d) - 1) * d < n,
        n == 0 ==> quotient_up(n, d) == 0,
{
    let q = n / d;
    let r = n % d;
    assert(n == q * d + r && r < d) by (nonlinear_arith)
        requires
            d > 0,
            q == n / d,
            r == n % d,
    ;
    assert((q + 1) * d == q * d + d) by (nonlinear_arith);
    assert((q - 1) * d == q * d - d) by (nonlinear_arith);
    if n == 0 {
        assert(q == 0) by (nonlinear_arith)
            requires
                0 == q * d + r,
                d > 0,
                q >= 0,
                r >= 0,
        ;
    } else if r == 0 {
        assert(q > 0) by (nonlinear_arith)
            requires
                q * d > 0,
                q >= 0,
                d > 0,
        ;
    }
}

/// A projected shard is split into the fewest segments that stay within the size limit, at least one;
/// none of them is above the limit.
pub proof fn a_shard_is_projected_into_the_fewest_segments(per_shard: nat, max_bytes: nat)
    requires
        max_bytes > 0,
    ensures
        fewest_segments(per_shard, max_bytes) >= 1,
        fewest_segments(per_shard, max_bytes) * max_bytes >= per_shard,
        fewest_segments(per_shard, max_bytes) > 1 ==> (fewest_segments(per_shard, max_bytes) - 1)
            * max_bytes < per_shard,
        quotient_up(per_shard, fewest_segments(per_shard, max_bytes)) <= max_bytes,
{
    let segments = fewest_segments(per_shard, max_bytes);
    a_quotient_up_is_the_fewest_shares(per_shard, max_bytes);
    assert(segments * max_bytes >= per_shard);
    a_quotient_up_is_the_fewest_shares(per_shard, segments);
    let size = quotient_up(per_shard, segments);
    if size > max_bytes {
        assert((size - 1) * segments >= max_bytes * segments) by (nonlinear_arith)
            requires
                size - 1 >= max_bytes,
        ;
        assert(max_bytes * segments == segments * max_bytes) by (nonlinear_arith);
    }
}

/// A report shows the first ten files that could not be read, each with its own error, and says how
/// many more there are.
pub proof fn a_report_shows_the_first_failures(failures: Seq<FileFailure>, i: int)
    ensures
        failure_lines(failures, SHOWN as nat).len() + unshown(failures.len()) == failures.len(),
        failure_lines(failures, SHOWN as nat).len() <= 10,
        failures.len() <= 10 ==> unshown(failures.len()) == 0,
        0 <= i < failure_lines(failures, SHOWN as nat).len() ==> failure_lines(
            failures,
            SHOWN as nat,
        )[i] == "  "@ + failures[i].path@ + ": "@ + failures[i].error@,
{
    lemma_failure_lines(failures, SHOWN as nat, i);
}

proof fn lemma_failure_lines(failures: Seq<FileFailure>, shown: nat, i: int)
    ensures
        failure_lines(failures, shown).len() == (if shown <= failures.len() {
            shown
        } else {
            failures.len()
        }),
        0 <= i < failure_lines(failures, shown).len() ==> failure_lines(failures, shown)[i]
            == "  "@ + failures[i].path@ + ": "@ + failures[i].error@,
    decreases shown,
{
    if shown > 0 {
        lemma_failure_lines(failures, (shown - 1) as nat, i);
    }
}

/// A report shows the first ten ids that are not where they belong, each under its shard.
pub proof fn a_report_shows_the_first_ids(found: Seq<(u32, PointId)>, says: Seq<char>, i: int)
    ensures
        id_lines(found, says, SHOWN as nat).len() + unshown(found.len()) == found.len(),
        id_lines(found, says, SHOWN as nat).len() <= 10,
        0 <= i < id_lines(found, says, SHOWN as nat).len() ==> id_lines(
            found,
            says,
            SHOWN as nat,
        )[i] == "  shard "@ + text::decimal_text(found[i].0 as nat) + says + kind_text(found[i].1),
{
    lemma_id_lines(found, says, SHOWN as nat, i);
}

proof fn lemma_id_lines(found: Seq<(u32, PointId)>, says: Seq<char>, shown: nat, i: int)
    ensures
        id_lines(found, says, shown).len() == (if shown <= found.len() {
            shown
        } else {
            found.len()
        }),
        0 <= i < id_lines(found, says, shown).len() ==> id_lines(found, says, shown)[i]
            == "  shard "@ + text::decimal_text(found[i].0 as nat) + says + kind_text(found[i].1),
    decreases shown,
{
    if shown > 0 {
        lemma_id_lines(found, says, (shown - 1) as nat, i);
    }
}

/// Every planned shard has a line, in order, and so has every shard of an install plan.
pub proof fn every_shard_has_a_line(
    plans: Seq<ShardPlan>,
    placement: Seq<(u32, u64, Seq<char>)>,
    i: int,
)
    ensures
        shard_lines(plans).len() == plans.len(),
        0 <= i < plans.len() ==> shard_lines(plans)[i] == shard_line(plans[i]),
        assignment_lines(placement).len() == placement.len(),
        0 <= i < placement.len() ==> assignment_lines(placement)[i] == "  shard "@
            + text::decimal_text(placement[i].0 as nat) + "  ->  peer "@ + text::decimal_text(
            placement[i].1 as nat,
        ) + "  "@ + placement[i].2,
    decreases plans.len() + placement.len(),
{
    if plans.len() > 0 {
        every_shard_has_a_line(plans.drop_last(), placement, i);
    } else if placement.len() > 0 {
        every_shard_has_a_line(plans, placement.drop_last(), i);
    }
}

/// A scatter run closes with `OK` exactly where every file could be read.
pub proof fn a_short_scatter_is_not_called_ok(stats: ScatterStats)
    ensures
        scatter_lines_text(stats).len() > 0,
        scatter_lines_text(stats).last() == "\nOK"@ <==> stats.files_failed@.len() == 0,
{
    reveal_strlit("\nOK");
    reveal_strlit("  ");
    reveal_strlit("  ... and ");
    let failures = stats.files_failed@;
    let lines = scatter_lines_text(stats);
    lemma_failure_lines(failures, SHOWN as nat, failure_lines(failures, SHOWN as nat).len() - 1);
    if failures.len() > 0 {
        assert(lines.last()[0] == ' ');
    }
}

/// A placement check says `OK` in its verdict exactly where no id was missing from its own shard and
/// none was found in another.
pub proof fn a_wrong_placement_is_not_called_ok(report: PlacementReport, urls: usize)
    ensures
        placement_lines_text(report, urls).len() > 3,
        text::begins(placement_lines_text(report, urls)[3], "\nOK"@) <==> report.misplaced@.len()
            == 0 && report.leaked@.len() == 0,
{
    reveal_strlit("\nOK");
    reveal_strlit("\nOK - every sampled point is in the shard the hash ring assigned it to, and absent from the shard next to it");
    reveal_strlit("\nMISPLACED - the ring assigns these to a shard that does not hold them:");
    reveal_strlit("\nLEAKED - found in a shard the ring did not assign them to:");
    let lines = placement_lines_text(report, urls);
    lemma_id_lines(report.misplaced@, " should hold "@, SHOWN as nat, 0);
    let verdict = lines[3];
    if is_correct(report) {
        assert(verdict
            == "\nOK - every sampled point is in the shard the hash ring assigned it to, and absent from the shard next to it"@);
        assert(verdict.take(3) =~= "\nOK"@);
    } else {
        assert(verdict[1] == 'M' || verdict[1] == 'L');
        if text::begins(verdict, "\nOK"@) {
            assert(verdict.take(3)[1] == verdict[1]);
        }
    }
}

/// Comparing a document with a live collection says `OK` exactly where both fingerprints are the same
/// and no difference is named.
pub proof fn a_differing_config_is_not_called_ok(
    collection: Seq<char>,
    local: Seq<char>,
    remote: Seq<char>,
    differences: Seq<Seq<char>>,
)
    ensures
        verify_config_lines_text(collection, local, remote, differences).len() > 3,
        text::begins(
            verify_config_lines_text(collection, local, remote, differences)[3],
            "\nOK"@,
        ) <==> local == remote && differences.len() == 0,
{
    reveal_strlit("\nOK");
    reveal_strlit("\nOK - config matches the live collection");
    reveal_strlit("\nDifferences over the rebuild-triggering surface:");
    let lines = verify_config_lines_text(collection, local, remote, differences);
    let verdict = lines[3];
    if local == remote && differences.len() == 0 {
        assert(verdict == "\nOK - config matches the live collection"@);
        assert(verdict.take(3) =~= "\nOK"@);
    } else {
        assert(verdict[1] == 'D');
        if text::begins(verdict, "\nOK"@) {
            assert(verdict.take(3)[1] == verdict[1]);
        }
    }
}

/// Every note of every plan is a warning, behind the shard that it is about, and nothing else is one.
pub proof fn every_note_is_a_warning(plans: Seq<ShardPlan>, plan: ShardPlan, i: int)
    ensures
        warning_lines(Seq::empty()).len() == 0,
        warning_lines(plans.push(plan)).len() == warning_lines(plans).len() + plan::review_notes(
            plan,
        ).len(),
        0 <= i < plan::review_notes(plan).len() ==> warning_lines(plans.push(plan))[warning_lines(
            plans,
        ).len() + i] == "shard "@ + text::decimal_text(plan.shard_id as nat) + ": "@
            + plan::review_notes(plan)[i],
        0 <= i < warning_lines(plans).len() ==> warning_lines(plans.push(plan))[i]
            == warning_lines(plans)[i],
{
    assert(plans.push(plan).drop_last() =~= plans);
}

/// A plan run that has warned says how often, and one that has not says nothing of it; the last line
/// is `OK`.
pub proof fn a_plan_run_counts_its_warnings(report: PlanReport, dir: Seq<char>, warnings: usize)
    ensures
        ({
            let lines = plan_lines_text(report, dir, warnings);
            &&& lines.last() == "\nOK"@
            &&& lines.len() == 6 + report.plans@.len() + (if report.shards_skipped > 0 {
                1int
            } else {
                0
            }) + (if warnings > 0 {
                1int
            } else {
                0
            })
            &&& warnings > 0 ==> lines[lines.len() - 2] == text::decimal_text(warnings as nat)
                + " warning(s) above - review before building"@
            &&& warnings == 0 ==> lines[lines.len() - 2] == "\nplans written to "@ + dir
        }),
{
    lemma_shard_lines(report.plans@);
}

proof fn lemma_shard_lines(plans: Seq<ShardPlan>)
    ensures
        shard_lines(plans).len() == plans.len(),
    decreases plans.len(),
{
    if plans.len() > 0 {
        lemma_shard_lines(plans.drop_last());
    }
}

/// A pass over the scatter output says `OK` where it has read points, or where an earlier pass had
/// verified every part, and nowhere else.
pub proof fn an_empty_output_is_not_called_ok(report: ScatterReport, shards: u32, mean: Seq<char>)
    ensures
        text::begins(scatter_verify_lines_text(report, shards, mean).last(), "\nOK"@) <==> (
        report.points > 0 || report.parts_skipped > 0),
        forall|i: int|
            0 <= i < scatter_verify_lines_text(report, shards, mean).len() - 1 ==> !text::begins(
                #[trigger] scatter_verify_lines_text(report, shards, mean)[i],
                "\nOK"@,
            ),
{
    reveal_strlit("\nOK");
    reveal_strlit("\nOK - every part was already verified by an earlier run");
    reveal_strlit("\nOK - every point is in the shard the hash ring chose");
    reveal_strlit("parts: ");
    reveal_strlit("parts_skipped: ");
    reveal_strlit("points: ");
    reveal_strlit("shards with data: ");
    reveal_strlit("points/shard: min ");
    let lines = scatter_verify_lines_text(report, shards, mean);
    let verified = "\nOK - every part was already verified by an earlier run"@;
    let placed = "\nOK - every point is in the shard the hash ring chose"@;
    assert(verified.take(3) =~= "\nOK"@);
    assert(placed.take(3) =~= "\nOK"@);
    assert forall|i: int| 0 <= i < lines.len() && (#[trigger] lines[i])[0] != '\n' implies !text::begins(
        lines[i],
        "\nOK"@,
    ) by {
        if text::begins(lines[i], "\nOK"@) {
            assert(lines[i].take(3)[0] == lines[i][0]);
        }
    }
    assert forall|i: int| 0 <= i < lines.len() - 1 implies (#[trigger] lines[i])[0] == 'p'
        || lines[i][0] == 's' by {}
    if report.points > 0 {
        assert(lines.last() == placed);
    } else if report.parts_skipped > 0 {
        assert(lines.last() == verified);
    } else {
        assert(lines.last()[0] == 'p');
    }
}

/// A projection warns of at most one thing: of shards below the floor where they are, and otherwise of
/// segments close above it.
pub proof fn a_projection_warns_of_the_floor(
    projection: Projection,
    headroom: Seq<char>,
    close_to_floor: bool,
    min_bytes: u64,
)
    ensures
        ({
            let warnings = projection_warnings_text(projection, headroom, close_to_floor, min_bytes);
            &&& warnings.len() == (if projection.below_floor || close_to_floor {
                1nat
            } else {
                0
            })
            &&& projection.below_floor ==> text::begins(
                warnings[0],
                "a shard holds "@ + cli::human_text(projection.per_shard as nat),
            )
            &&& !projection.below_floor && close_to_floor ==> text::begins(
                warnings[0],
                "segments sit only "@ + headroom + "% above"@,
            )
        }),
{
    let warnings = projection_warnings_text(projection, headroom, close_to_floor, min_bytes);
    if projection.below_floor {
        let head = "a shard holds "@ + cli::human_text(projection.per_shard as nat);
        assert(warnings[0].take(head.len() as int) =~= head);
    } else if close_to_floor {
        reveal_strlit("% above");
        reveal_strlit("% above the merge-safe floor (");
        let head = "segments sit only "@ + headroom;
        let line = warnings[0];
        let tail = "% above the merge-safe floor ("@;
        assert(tail.take(7) =~= "% above"@);
        assert forall|i: int| 0 <= i < head.len() + 7 implies line[i] == (head + "% above"@)[i] by {
            if i >= head.len() {
                assert(line[i] == tail[i - head.len()]);
                assert("% above"@[i - head.len()] == tail.take(7)[i - head.len()]);
            }
        }
        assert(line.take((head.len() + 7) as int) =~= head + "% above"@);
    }
}

/// Only a run that is not dry says that it has rewritten segments, and only a dry run says that
/// nothing was written; every change stands before that.
pub proof fn a_dry_run_says_so(report: RetargetReport, i: int)
    ensures
        retarget_lines_text(report, true).len() == report.changes@.len() + 1,
        retarget_lines_text(report, false).len() == report.changes@.len() + (
        if report.segments_rewritten > 0 {
            2int
        } else {
            1
        }),
        text::begins(retarget_lines_text(report, true)[report.changes@.len() as int], "dry run: "@),
        text::begins(
            retarget_lines_text(report, false)[report.changes@.len() as int],
            "retargeted: "@,
        ),
        0 <= i < report.changes@.len() ==> retarget_lines_text(report, true)[i] == "  "@
            + report.changes@[i]@ && retarget_lines_text(report, false)[i] == "  "@
            + report.changes@[i]@,
{
    let dry = retarget_lines_text(report, true)[report.changes@.len() as int];
    let wet = retarget_lines_text(report, false)[report.changes@.len() as int];
    assert(dry.take("dry run: "@.len() as int) =~= "dry run: "@);
    assert(wet.take("retargeted: "@.len() as int) =~= "retargeted: "@);
}

/// A product that is held to a range is the product, or the largest number where that is smaller.
pub proof fn a_product_is_held_to_the_range(a: u64, b: u64)
    ensures
        product_or_max(a, b) <= a * b,
        product_or_max(a, b) <= u64::MAX,
        product_or_max(a, b) == a * b || product_or_max(a, b) == u64::MAX,
{
    assert(a * b >= 0) by (nonlinear_arith);
}

/// A run is told by its own mode and route.
pub proof fn modes_and_routes_are_told_apart()
    ensures
        text::begins(mode_text(true), "deep"@),
        text::begins(mode_text(false), "metadata"@),
        text::begins(route_text(BuildRoute::Bulk), "bulk"@),
        text::begins(route_text(BuildRoute::Edge), "edge"@),
{
    reveal_strlit("deep");
    reveal_strlit("metadata");
    reveal_strlit("bulk");
    reveal_strlit("edge");
    reveal_strlit("deep (every record read)");
    reveal_strlit("metadata (header + recorded length per part)");
    reveal_strlit("bulk (storages filled directly, indexes built once)");
    reveal_strlit("edge (staging shard + optimizers)");
    assert(mode_text(true).take(4) =~= "deep"@);
    assert(mode_text(false).take(8) =~= "metadata"@);
    assert(route_text(BuildRoute::Bulk).take(4) =~= "bulk"@);
    assert(route_text(BuildRoute::Edge).take(4) =~= "edge"@);
}

/// A projected shard holds its share of the points and the bytes, rounded up, in the fewest segments
/// that stay within the limit; it is below the floor where its segments are.
pub proof fn a_projection_holds_every_point(
    projection: Projection,
    shards: u32,
    default_segments: u64,
    points: u64,
    vector_bytes: u64,
    min_bytes: u64,
    max_bytes: u64,
)
    requires
        is_projection(
            projection,
            shards,
            default_segments,
            points,
            vector_bytes,
            min_bytes,
            max_bytes,
        ),
        shards > 0,
        max_bytes > 0,
    ensures
        projection.points == points,
        projection.vector_bytes == vector_bytes,
        projection.shards == shards,
        projection.per_shard * shards >= vector_bytes,
        vector_bytes > 0 ==> (projection.per_shard - 1) * shards < vector_bytes,
        projection.points_per_shard * shards >= points,
        points > 0 ==> (projection.points_per_shard - 1) * shards < points,
        projection.segments_per_shard >= 1,
        projection.segments_per_shard * max_bytes >= projection.per_shard,
        projection.segments_per_shard > 1 ==> (projection.segments_per_shard - 1) * max_bytes
            < projection.per_shard,
        projection.segment_size * projection.segments_per_shard >= projection.per_shard,
        projection.segment_size <= max_bytes,
        projection.below_floor <==> projection.segment_size < min_bytes,
        projection.many_segments <==> projection.segment_size >= min_bytes && 0 < default_segments
            < projection.segments_per_shard,
{
    a_quotient_up_is_the_fewest_shares(vector_bytes as nat, shards as nat);
    a_quotient_up_is_the_fewest_shares(points as nat, shards as nat);
    a_shard_is_projected_into_the_fewest_segments(projection.per_shard as nat, max_bytes as nat);
    a_quotient_up_is_the_fewest_shares(
        projection.per_shard as nat,
        projection.segments_per_shard as nat,
    );
}

} // verus!
